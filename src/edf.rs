use vstd::prelude::*;
use vstd::string::StrSliceExecFns;
use vstd::utf8::encode_utf8;
use crate::annotation::{
    encode_annotation, fill_annotation_block, keeping, lemma_keeping_len, tal,
    valid_model, Annotation,
};
use crate::error::EdfError;
use crate::header::{encode_header, header_bytes, header_fits, lemma_fits, signal_fits, Header, SignalParam};
use crate::record::{block_offset, pack_record, record_len, Block};
use crate::sample::sample_value;
use crate::sample::Filetype;
use crate::scaling::{
    in_physical_limits, Physical, Scaling, PHYSICAL_LIMIT_MAX, PHYSICAL_LIMIT_MIN,
};

verus! {

/// Bytes that each annotation signal takes in every record.
pub const ANNOTATION_BYTES: usize = 114;
/// The most bytes that one annotation's encoding may take: a block's bytes less the
/// longest time-keeping entry that a record can open with, twelve bytes.
pub const ANNOTATION_ROOM: usize = 102;
/// The most signals, ordinary and annotation together, that a file can hold.
pub const MAX_SIGNALS: usize = 4096;
/// The most annotation signals a file can hold.
pub const MAX_ANNOTATION_SIGNALS: usize = 64;
/// The largest value of an eight-character numeric header field.
pub const MAX_FIELD_VALUE: u32 = 99999999;
/// The duration of a data record, in 100 ns units: one second.
pub const RECORD_TICKS: i64 = 10_000_000;

/// Where the annotation signals stand among the ordinary signals.
#[derive(Debug, Clone, Copy, PartialEq, Eq, Structural)]
pub enum AnnotationPosition {
    Start,
    Middle,
    End,
}

impl AnnotationPosition {
    /// The position's number: 0 at the end, 1 in the middle, 2 at the start.
    pub fn to_raw(&self) -> (r: i32)
        ensures
            *self == AnnotationPosition::End ==> r == 0,
            *self == AnnotationPosition::Middle ==> r == 1,
            *self == AnnotationPosition::Start ==> r == 2,
    {
        match self {
            AnnotationPosition::End => 0,
            AnnotationPosition::Middle => 1,
            AnnotationPosition::Start => 2,
        }
    }
}

/// The lifecycle of a write session.
#[derive(Debug, Clone, Copy, PartialEq, Eq, Structural)]
pub enum SessionState {
    /// Not opened yet.
    Closed,
    /// Open: configuration, then records and annotations.
    OpenForWrite,
    /// Closed after the file was produced.
    Finalized,
}

/// A write session: signal configuration, the records written so far, and the pending
/// annotations. `finish` produces the bytes of the file.
pub struct Edf {
    pub path: String,
    pub number_of_signals: i32,
    pub state: SessionState,
    pub filetype: Filetype,
    pub signals: Vec<SignalParam>,
    pub annotation_signals: usize,
    pub annotation_position: AnnotationPosition,
    pub equipment: Vec<u8>,
    pub records: Vec<Vec<Vec<i32>>>,
    pub pending: Vec<Vec<i32>>,
    pub annotations: Vec<Annotation>,
}

/// The variant that a path names: BDF+ when it ends in `.bdf`, else EDF+.
pub open spec fn filetype_of_path(p: Seq<u8>) -> Filetype {
    if p.len() >= 4 && p.subrange(p.len() - 4, p.len() as int) == seq![46u8, 98u8, 100u8, 102u8] {
        Filetype::BDF
    } else {
        Filetype::EDF
    }
}

/// Whether a signal's parameters are a valid configuration for the variant.
pub open spec fn signal_ok(p: SignalParam, ft: Filetype) -> bool {
    &&& crate::sample::min_code(ft.spec_width()) <= p.dig_min < p.dig_max <= crate::sample::max_code(ft.spec_width())
    &&& in_physical_limits(p.phys_min as int) && in_physical_limits(p.phys_max as int)
    &&& p.phys_min < p.phys_max
    &&& 1 <= p.samples_per_record <= MAX_FIELD_VALUE
}

/// Whether `p` holds the parameters a signal starts with: no text, the variant's whole
/// digital range, the same numbers as physical range, and one sample per record.
pub open spec fn is_default_signal(p: SignalParam, ft: Filetype) -> bool {
    &&& p.label@.len() == 0 && p.transducer@.len() == 0 && p.physical_dimension@.len() == 0
    &&& p.prefilter@.len() == 0
    &&& p.dig_min == crate::sample::min_code(ft.spec_width())
    &&& p.dig_max == crate::sample::max_code(ft.spec_width())
    &&& p.phys_min == p.dig_min && p.phys_max == p.dig_max
    &&& p.samples_per_record == 1
}

/// Whether a run of codes is one record's block of a signal.
pub open spec fn codes_ok(c: Seq<i32>, p: SignalParam) -> bool {
    c.len() == p.samples_per_record && forall|j: int|
        0 <= j < c.len() ==> p.dig_min <= #[trigger] c[j] <= p.dig_max
}

/// The scaling map of a signal.
pub open spec fn scaling_of(p: SignalParam) -> Scaling {
    Scaling { dig_min: p.dig_min, dig_max: p.dig_max, phys_min: p.phys_min, phys_max: p.phys_max }
}

/// Whether a physical value quantises inside a signal's digital range.
pub open spec fn in_digital_range(p: SignalParam, v: Physical) -> bool {
    let c = scaling_of(p).digital_of(v.num as int, v.den as int);
    p.dig_min <= c <= p.dig_max
}

/// The digital codes of a run of physical values.
pub open spec fn quantize(p: SignalParam, samples: Seq<Physical>) -> Seq<i32> {
    Seq::new(
        samples.len(),
        |j: int| scaling_of(p).digital_of(samples[j].num as int, samples[j].den as int) as i32,
    )
}

/// The annotation that `write_annotation` queues: a negative duration stands for none.
pub open spec fn annotation_model_of(onset: i64, duration: i64, text: Seq<u8>) -> crate::annotation::AnnotationModel {
    (onset as int, if duration < 0 { None } else { Some(duration as int) }, text)
}

/// The index among all signals at which the annotation signals start.
pub open spec fn insert_index(pos: AnnotationPosition, n: int) -> int {
    match pos {
        AnnotationPosition::Start => 0,
        AnnotationPosition::Middle => n / 2,
        AnnotationPosition::End => n,
    }
}

/// Which ordinary signal stands at index `i` among all signals, or `None` for an
/// annotation signal.
pub open spec fn slot(pos: AnnotationPosition, n: int, a: int, i: int) -> Option<int> {
    let k = insert_index(pos, n);
    if i < k {
        Some(i)
    } else if i < k + a {
        None
    } else {
        Some(i - a)
    }
}

/// Samples per record of an annotation signal: its fixed byte budget over the sample width.
pub open spec fn annotation_spr(ft: Filetype) -> int {
    (ANNOTATION_BYTES as int) / (ft.spec_width() as int)
}

/// An annotation signal's samples fill its byte budget exactly.
pub proof fn lemma_annotation_spr(ft: Filetype)
    ensures
        annotation_spr(ft) * ft.spec_width() == ANNOTATION_BYTES,
        annotation_spr(ft) == 57 || annotation_spr(ft) == 38,
{
    match ft {
        Filetype::EDF => {
            assert(ft.spec_width() == 2);
            assert((114int) / 2 == 57);
            assert(annotation_spr(ft) == 57);
        },
        Filetype::BDF => {
            assert(ft.spec_width() == 3);
            assert((114int) / 3 == 38);
            assert(annotation_spr(ft) == 38);
        },
    }
}

/// Whether two signal parameters say the same.
pub open spec fn same_param(p: SignalParam, q: SignalParam) -> bool {
    &&& p.label@ == q.label@
    &&& p.transducer@ == q.transducer@
    &&& p.physical_dimension@ == q.physical_dimension@
    &&& p.prefilter@ == q.prefilter@
    &&& p.phys_min == q.phys_min && p.phys_max == q.phys_max
    &&& p.dig_min == q.dig_min && p.dig_max == q.dig_max
    &&& p.samples_per_record == q.samples_per_record
}

/// The label of an annotation signal.
pub open spec fn annotation_label(ft: Filetype) -> Seq<u8> {
    let first: u8 = match ft {
        Filetype::EDF => 69,
        Filetype::BDF => 66,
    };
    seq![first, 68u8, 70, 32, 65, 110, 110, 111, 116, 97, 116, 105, 111, 110, 115, 32]
}

/// Whether `p` describes an annotation signal of the variant.
pub open spec fn is_annotation_param(p: SignalParam, ft: Filetype) -> bool {
    &&& p.label@ == annotation_label(ft)
    &&& p.transducer@.len() == 0 && p.physical_dimension@.len() == 0 && p.prefilter@.len() == 0
    &&& p.phys_min == -1 && p.phys_max == 1
    &&& p.dig_min == crate::sample::min_code(ft.spec_width())
    &&& p.dig_max == crate::sample::max_code(ft.spec_width())
    &&& p.samples_per_record == annotation_spr(ft)
}

fn annotation_param(ft: Filetype) -> (r: SignalParam)
    ensures
        is_annotation_param(r, ft),
        signal_fits(r),
{
    proof {
        reveal_with_fuel(crate::sample::modulus, 4);
        reveal_with_fuel(crate::decimal::pow10, 9);
        lemma_fits(-1, 8);
        lemma_fits(1, 8);
        lemma_fits(crate::sample::min_code(ft.spec_width()), 8);
        lemma_fits(crate::sample::max_code(ft.spec_width()), 8);
        lemma_fits(annotation_spr(ft), 8);
    }
    let first: u8 = match ft {
        Filetype::EDF => 69,
        Filetype::BDF => 66,
    };
    let label = vec![first, 68u8, 70, 32, 65, 110, 110, 111, 116, 97, 116, 105, 111, 110, 115, 32];
    assert(label@ =~= annotation_label(ft));
    SignalParam {
        label,
        transducer: Vec::new(),
        physical_dimension: Vec::new(),
        prefilter: Vec::new(),
        phys_min: -1,
        phys_max: 1,
        dig_min: ft.digital_floor(),
        dig_max: ft.digital_ceiling(),
        samples_per_record: (ANNOTATION_BYTES / ft.width()) as u32,
    }
}

/// Whether a label, as the header writes it, is the label of an annotation signal.
fn is_reserved_label(label: &Vec<u8>, ft: Filetype) -> (r: bool)
    ensures
        r == (crate::header::text_field(label@, 16) == annotation_label(ft)),
{
    let mut field: Vec<u8> = Vec::new();
    crate::header::push_text_field(&mut field, label, 16);
    let reserved = annotation_param(ft).label;
    assert(field@ =~= crate::header::text_field(label@, 16));
    let mut k: usize = 0;
    while k < 16
        invariant
            k <= 16,
            field@.len() == 16,
            reserved@ == annotation_label(ft),
            field@ == crate::header::text_field(label@, 16),
            forall|m: int| 0 <= m < k ==> field@[m] == reserved@[m],
        decreases 16 - k,
    {
        if field[k] != reserved[k] {
            return false;
        }
        k = k + 1;
    }
    assert(field@ =~= reserved@);
    true
}

fn copy_bytes(v: &Vec<u8>) -> (r: Vec<u8>)
    ensures
        r@ == v@,
{
    let mut out: Vec<u8> = Vec::new();
    let mut i: usize = 0;
    while i < v.len()
        invariant
            i <= v@.len(),
            out@ == v@.subrange(0, i as int),
        decreases v@.len() - i,
    {
        out.push(v[i]);
        assert(out@ =~= v@.subrange(0, i + 1));
        i = i + 1;
    }
    assert(v@.subrange(0, v@.len() as int) =~= v@);
    out
}

fn copy_codes(v: &Vec<i32>) -> (r: Vec<i32>)
    ensures
        r@ == v@,
{
    let mut out: Vec<i32> = Vec::new();
    let mut i: usize = 0;
    while i < v.len()
        invariant
            i <= v@.len(),
            out@ == v@.subrange(0, i as int),
        decreases v@.len() - i,
    {
        out.push(v[i]);
        assert(out@ =~= v@.subrange(0, i + 1));
        i = i + 1;
    }
    assert(v@.subrange(0, v@.len() as int) =~= v@);
    out
}

fn copy_param(p: &SignalParam) -> (r: SignalParam)
    ensures
        same_param(r, *p),
{
    SignalParam {
        label: copy_bytes(&p.label),
        transducer: copy_bytes(&p.transducer),
        physical_dimension: copy_bytes(&p.physical_dimension),
        prefilter: copy_bytes(&p.prefilter),
        phys_min: p.phys_min,
        phys_max: p.phys_max,
        dig_min: p.dig_min,
        dig_max: p.dig_max,
        samples_per_record: p.samples_per_record,
    }
}

/// The index among all signals of ordinary signal `s`.
pub open spec fn ordinary_index(pos: AnnotationPosition, n: int, a: int, s: int) -> int {
    if s < insert_index(pos, n) {
        s
    } else {
        s + a
    }
}

pub proof fn lemma_ordinary_index(pos: AnnotationPosition, n: int, a: int, s: int)
    requires
        0 <= s < n,
        a >= 0,
    ensures
        0 <= ordinary_index(pos, n, a, s) < n + a,
        slot(pos, n, a, ordinary_index(pos, n, a, s)) == Some(s),
{
}

/// A sample of signal `i` lies inside the record.
pub proof fn lemma_sample_in_record(spr: Seq<u32>, w: nat, i: int, j: int)
    requires
        0 <= i < spr.len(),
        0 <= j < spr[i],
    ensures
        0 <= block_offset(spr, w, i),
        block_offset(spr, w, i) + j * w + w <= record_len(spr, w),
{
    crate::record::lemma_offset_monotone(spr, w, i + 1, spr.len() as int);
    crate::record::lemma_offset_monotone(spr, w, i, i);
    assert(j * w + w <= spr[i] * w) by (nonlinear_arith)
        requires
            j < spr[i],
    ;
}

impl Edf {
    pub open spec fn wf(self) -> bool {
        &&& self.state == SessionState::OpenForWrite ==> {
            &&& 1 <= self.signals@.len() <= MAX_SIGNALS
            &&& self.signals@.len() == self.number_of_signals
            &&& 1 <= self.annotation_signals <= MAX_ANNOTATION_SIGNALS
            &&& self.signals@.len() + self.annotation_signals <= MAX_SIGNALS
            &&& forall|i: int|
                0 <= i < self.signals@.len() ==> signal_ok(#[trigger] self.signals@[i], self.filetype)
            &&& forall|i: int|
                0 <= i < self.signals@.len() ==> crate::header::text_field(
                    #[trigger] self.signals@[i].label@,
                    16,
                ) != annotation_label(self.filetype)
            &&& self.records@.len() <= MAX_FIELD_VALUE
            &&& forall|r: int|
                0 <= r < self.records@.len() ==> #[trigger] self.records@[r]@.len()
                    == self.signals@.len()
            &&& forall|r: int, s: int|
                0 <= r < self.records@.len() && 0 <= s < self.signals@.len() ==> codes_ok(
                    #[trigger] self.records@[r]@[s]@,
                    self.signals@[s],
                )
            &&& self.pending@.len() < self.signals@.len()
            &&& forall|s: int|
                0 <= s < self.pending@.len() ==> codes_ok(
                    #[trigger] self.pending@[s]@,
                    self.signals@[s],
                )
            &&& forall|k: int|
                0 <= k < self.annotations@.len() ==> valid_model(
                    #[trigger] self.annotations@[k].model(),
                ) && tal(self.annotations@[k].model()).len() <= ANNOTATION_ROOM
        }
    }

    /// Whether configuration is still open: nothing has been written yet.
    pub open spec fn configurable(self) -> bool {
        self.records@.len() == 0 && self.pending@.len() == 0
    }

    /// A session for the file at `path`, with one signal, not yet opened.
    pub fn new(path: String) -> (r: Edf)
        ensures
            r.path == path,
            r.number_of_signals == 1,
            r.state == SessionState::Closed,
            r.wf(),
    {
        Edf {
            path,
            number_of_signals: 1,
            state: SessionState::Closed,
            filetype: Filetype::EDF,
            signals: Vec::new(),
            annotation_signals: 1,
            annotation_position: AnnotationPosition::End,
            equipment: Vec::new(),
            records: Vec::new(),
            pending: Vec::new(),
            annotations: Vec::new(),
        }
    }
}

/// The UTF-8 bytes of a string.
pub fn text_bytes(s: &String) -> (r: Vec<u8>)
    ensures
        r@ == encode_utf8(s@),
{
    s.as_str().as_bytes_vec()
}

/// The variant that a path names.
pub fn filetype_of(path: &String) -> (r: Filetype)
    ensures
        r == filetype_of_path(encode_utf8(path@)),
{
    let b = text_bytes(path);
    let n = b.len();
    if n >= 4 && b[n - 4] == 46u8 && b[n - 3] == 98u8 && b[n - 2] == 100u8 && b[n - 1] == 102u8 {
        assert(b@.subrange(n - 4, n as int) =~= seq![46u8, 98u8, 100u8, 102u8]);
        Filetype::BDF
    } else {
        proof {
            if n >= 4 && b@.subrange(n - 4, n as int) == seq![46u8, 98u8, 100u8, 102u8] {
                assert(b@[n - 4] == b@.subrange(n - 4, n as int)[0]);
                assert(b@[n - 3] == b@.subrange(n - 4, n as int)[1]);
                assert(b@[n - 2] == b@.subrange(n - 4, n as int)[2]);
                assert(b@[n - 1] == b@.subrange(n - 4, n as int)[3]);
            }
        }
        Filetype::EDF
    }
}

/// The parameters a signal starts with: no text, the variant's whole digital range, the
/// same numbers as physical range, and one sample per record.
fn make_default_signal(ft: Filetype) -> (r: SignalParam)
    ensures
        r.label@.len() == 0 && r.transducer@.len() == 0 && r.physical_dimension@.len() == 0
            && r.prefilter@.len() == 0,
        r.phys_min == crate::sample::min_code(ft.spec_width()),
        r.phys_max == crate::sample::max_code(ft.spec_width()),
        r.dig_min == crate::sample::min_code(ft.spec_width()),
        r.dig_max == crate::sample::max_code(ft.spec_width()),
        r.samples_per_record == 1,
        signal_ok(r, ft),
{
    proof {
        reveal_with_fuel(crate::sample::modulus, 4);
    }
    let lo = ft.digital_floor();
    let hi = ft.digital_ceiling();
    SignalParam {
        label: Vec::new(),
        transducer: Vec::new(),
        physical_dimension: Vec::new(),
        prefilter: Vec::new(),
        phys_min: lo,
        phys_max: hi,
        dig_min: lo,
        dig_max: hi,
        samples_per_record: 1,
    }
}

impl Edf {
    /// Opens the session for writing: the variant follows the path's extension, and
    /// `number_of_signals` ordinary signals get their starting parameters.
    pub fn open_file_writeonly(&mut self) -> (r: Result<(), EdfError>)
        requires
            old(self).wf(),
        ensures
            final(self).wf(),
            old(self).state != SessionState::Closed ==> r == Err::<(), EdfError>(
                EdfError::AlreadyOpen,
            ) && *final(self) == *old(self),
            old(self).state == SessionState::Closed && !(1 <= old(self).number_of_signals
                <= MAX_SIGNALS - 1) ==> r == Err::<(), EdfError>(EdfError::InvalidRange)
                && *final(self) == *old(self),
            old(self).state == SessionState::Closed && 1 <= old(self).number_of_signals
                <= MAX_SIGNALS - 1 ==> {
                &&& r is Ok
                &&& final(self).state == SessionState::OpenForWrite
                &&& final(self).filetype == filetype_of_path(encode_utf8(old(self).path@))
                &&& final(self).signals@.len() == old(self).number_of_signals
                &&& forall|i: int|
                    0 <= i < final(self).signals@.len() ==> is_default_signal(
                        #[trigger] final(self).signals@[i],
                        final(self).filetype,
                    )
                &&& final(self).annotation_signals == 1
                &&& final(self).records@.len() == 0
                &&& final(self).pending@.len() == 0
                &&& final(self).annotations@.len() == 0
                &&& final(self).path == old(self).path
                &&& final(self).number_of_signals == old(self).number_of_signals
            },
    {
        if self.state != SessionState::Closed {
            return Err(EdfError::AlreadyOpen);
        }
        if self.number_of_signals < 1 || self.number_of_signals > (MAX_SIGNALS - 1) as i32 {
            return Err(EdfError::InvalidRange);
        }
        let ft = filetype_of(&self.path);
        let n = self.number_of_signals as usize;
        let mut signals: Vec<SignalParam> = Vec::new();
        let mut i: usize = 0;
        while i < n
            invariant
                i <= n,
                signals@.len() == i,
                forall|k: int| 0 <= k < i ==> signal_ok(#[trigger] signals@[k], ft),
                forall|k: int| 0 <= k < i ==> is_default_signal(#[trigger] signals@[k], ft),
                forall|k: int|
                    0 <= k < i ==> crate::header::text_field(#[trigger] signals@[k].label@, 16)
                        != annotation_label(ft),
            decreases n - i,
        {
            let p = make_default_signal(ft);
            proof {
                assert(crate::header::text_field(p.label@, 16)[0] == 32u8);
            }
            signals.push(p);
            i = i + 1;
        }
        self.filetype = ft;
        self.signals = signals;
        self.annotation_signals = 1;
        self.annotation_position = AnnotationPosition::End;
        self.records = Vec::new();
        self.pending = Vec::new();
        self.annotations = Vec::new();
        self.state = SessionState::OpenForWrite;
        Ok(())
    }

    /// The signal that a configuration call names, when configuration is still allowed.
    fn config_target(&self, edfsignal: i32) -> (r: Result<usize, EdfError>)
        ensures
            r == self.config_result(edfsignal),
    {
        if self.state != SessionState::OpenForWrite {
            return Err(EdfError::SessionNotOpen);
        }
        if self.records.len() != 0 || self.pending.len() != 0 {
            return Err(EdfError::HeaderAlreadyFinalized);
        }
        if edfsignal < 0 || edfsignal as usize >= self.signals.len() {
            return Err(EdfError::InvalidSignalIndex);
        }
        Ok(edfsignal as usize)
    }

    /// What a configuration call on signal `edfsignal` meets first: the session must be
    /// open, nothing written yet, and the index must name a signal.
    pub open spec fn config_result(self, edfsignal: i32) -> Result<usize, EdfError> {
        if self.state != SessionState::OpenForWrite {
            Err(EdfError::SessionNotOpen)
        } else if !self.configurable() {
            Err(EdfError::HeaderAlreadyFinalized)
        } else if edfsignal < 0 || edfsignal >= self.signals@.len() {
            Err(EdfError::InvalidSignalIndex)
        } else {
            Ok(edfsignal as usize)
        }
    }

    /// Whether `other` is this session with signal `i` replaced by `p`.
    pub open spec fn with_signal(self, other: Edf, i: int, p: SignalParam) -> bool {
        &&& other.signals@ == self.signals@.update(i, p)
        &&& other.state == self.state
        &&& other.filetype == self.filetype
        &&& other.number_of_signals == self.number_of_signals
        &&& other.annotation_signals == self.annotation_signals
        &&& other.annotation_position == self.annotation_position
        &&& other.equipment == self.equipment
        &&& other.records@ == self.records@
        &&& other.pending@ == self.pending@
        &&& other.annotations@ == self.annotations@
        &&& other.path == self.path
    }

    /// Takes signal `i` out of the table; `put_signal` puts its replacement back.
    fn take_signal(&mut self, i: usize) -> (p: SignalParam)
        requires
            i < old(self).signals@.len(),
        ensures
            p == old(self).signals@[i as int],
            final(self).signals@ == old(self).signals@.remove(i as int),
            final(self).state == old(self).state,
            final(self).filetype == old(self).filetype,
            final(self).number_of_signals == old(self).number_of_signals,
            final(self).annotation_signals == old(self).annotation_signals,
            final(self).annotation_position == old(self).annotation_position,
            final(self).equipment == old(self).equipment,
            final(self).records == old(self).records,
            final(self).pending == old(self).pending,
            final(self).annotations == old(self).annotations,
            final(self).path == old(self).path,
    {
        self.signals.remove(i)
    }

    fn put_signal(&mut self, i: usize, p: SignalParam)
        requires
            i <= old(self).signals@.len(),
        ensures
            final(self).signals@ == old(self).signals@.insert(i as int, p),
            final(self).state == old(self).state,
            final(self).filetype == old(self).filetype,
            final(self).number_of_signals == old(self).number_of_signals,
            final(self).annotation_signals == old(self).annotation_signals,
            final(self).annotation_position == old(self).annotation_position,
            final(self).equipment == old(self).equipment,
            final(self).records == old(self).records,
            final(self).pending == old(self).pending,
            final(self).annotations == old(self).annotations,
            final(self).path == old(self).path,
    {
        self.signals.insert(i, p);
    }

    /// Sets the samples per record, which with one-second records is the sample rate.
    pub fn set_samplefrequency(&mut self, edfsignal: i32, samplefrequency: i32) -> (r: Result<(), EdfError>)
        requires
            old(self).wf(),
        ensures
            final(self).wf(),
            match old(self).config_result(edfsignal) {
                Err(e) => r == Err::<(), EdfError>(e) && *final(self) == *old(self),
                Ok(i) => if 1 <= samplefrequency <= MAX_FIELD_VALUE {
                    r is Ok && old(self).with_signal(
                        *final(self),
                        i as int,
                        SignalParam { samples_per_record: samplefrequency as u32, ..old(self).signals@[i as int] },
                    )
                } else {
                    r == Err::<(), EdfError>(EdfError::InvalidRange) && *final(self) == *old(self)
                },
            },
    {
        let i = match self.config_target(edfsignal) {
            Err(e) => {
                return Err(e);
            },
            Ok(i) => i,
        };
        if samplefrequency < 1 || samplefrequency as u32 > MAX_FIELD_VALUE {
            return Err(EdfError::InvalidRange);
        }
        let o = self.take_signal(i);
        self.put_signal(i, SignalParam { samples_per_record: samplefrequency as u32, ..o });
        assert(self.signals@ =~= old(self).signals@.update(
            i as int,
            SignalParam { samples_per_record: samplefrequency as u32, ..old(self).signals@[i as int] },
        ));
        Ok(())
    }

    /// Sets the largest digital code of a signal.
    pub fn set_digital_maximum(&mut self, edfsignal: i32, dig_max: i32) -> (r: Result<(), EdfError>)
        requires
            old(self).wf(),
        ensures
            final(self).wf(),
            match old(self).config_result(edfsignal) {
                Err(e) => r == Err::<(), EdfError>(e) && *final(self) == *old(self),
                Ok(i) => {
                    let p = old(self).signals@[i as int];
                    let w = old(self).filetype.spec_width();
                    if dig_max == p.dig_min {
                        r == Err::<(), EdfError>(EdfError::ScalingDegenerate) && *final(self) == *old(self)
                    } else if !(p.dig_min < dig_max <= crate::sample::max_code(w)) {
                        r == Err::<(), EdfError>(EdfError::InvalidRange) && *final(self) == *old(self)
                    } else {
                        r is Ok && old(self).with_signal(*final(self), i as int, SignalParam { dig_max, ..p })
                    }
                },
            },
    {
        let i = match self.config_target(edfsignal) {
            Err(e) => {
                return Err(e);
            },
            Ok(i) => i,
        };
        proof {
            reveal_with_fuel(crate::sample::modulus, 4);
        }
        let hi = self.filetype.digital_ceiling();
        let p_min = self.signals[i].dig_min;
        if dig_max == p_min {
            return Err(EdfError::ScalingDegenerate);
        }
        if dig_max < p_min || dig_max > hi {
            return Err(EdfError::InvalidRange);
        }
        let o = self.take_signal(i);
        self.put_signal(i, SignalParam { dig_max, ..o });
        assert(self.signals@ =~= old(self).signals@.update(
            i as int,
            SignalParam { dig_max, ..old(self).signals@[i as int] },
        ));
        Ok(())
    }

    /// Sets the smallest digital code of a signal.
    pub fn set_digital_minimum(&mut self, edfsignal: i32, dig_min: i32) -> (r: Result<(), EdfError>)
        requires
            old(self).wf(),
        ensures
            final(self).wf(),
            match old(self).config_result(edfsignal) {
                Err(e) => r == Err::<(), EdfError>(e) && *final(self) == *old(self),
                Ok(i) => {
                    let p = old(self).signals@[i as int];
                    let w = old(self).filetype.spec_width();
                    if dig_min == p.dig_max {
                        r == Err::<(), EdfError>(EdfError::ScalingDegenerate) && *final(self) == *old(self)
                    } else if !(crate::sample::min_code(w) <= dig_min < p.dig_max) {
                        r == Err::<(), EdfError>(EdfError::InvalidRange) && *final(self) == *old(self)
                    } else {
                        r is Ok && old(self).with_signal(*final(self), i as int, SignalParam { dig_min, ..p })
                    }
                },
            },
    {
        let i = match self.config_target(edfsignal) {
            Err(e) => {
                return Err(e);
            },
            Ok(i) => i,
        };
        proof {
            reveal_with_fuel(crate::sample::modulus, 4);
        }
        let lo = self.filetype.digital_floor();
        let p_max = self.signals[i].dig_max;
        if dig_min == p_max {
            return Err(EdfError::ScalingDegenerate);
        }
        if dig_min > p_max || dig_min < lo {
            return Err(EdfError::InvalidRange);
        }
        let o = self.take_signal(i);
        self.put_signal(i, SignalParam { dig_min, ..o });
        assert(self.signals@ =~= old(self).signals@.update(
            i as int,
            SignalParam { dig_min, ..old(self).signals@[i as int] },
        ));
        Ok(())
    }

    /// Sets the physical value of the largest digital code.
    pub fn set_physical_maximum(&mut self, edfsignal: i32, phys_max: i32) -> (r: Result<(), EdfError>)
        requires
            old(self).wf(),
        ensures
            final(self).wf(),
            match old(self).config_result(edfsignal) {
                Err(e) => r == Err::<(), EdfError>(e) && *final(self) == *old(self),
                Ok(i) => {
                    let p = old(self).signals@[i as int];
                    if !(p.phys_min < phys_max <= PHYSICAL_LIMIT_MAX) {
                        r == Err::<(), EdfError>(EdfError::InvalidRange) && *final(self) == *old(self)
                    } else {
                        r is Ok && old(self).with_signal(*final(self), i as int, SignalParam { phys_max, ..p })
                    }
                },
            },
    {
        let i = match self.config_target(edfsignal) {
            Err(e) => {
                return Err(e);
            },
            Ok(i) => i,
        };
        let p_min = self.signals[i].phys_min;
        if phys_max <= p_min || phys_max > PHYSICAL_LIMIT_MAX {
            return Err(EdfError::InvalidRange);
        }
        let o = self.take_signal(i);
        self.put_signal(i, SignalParam { phys_max, ..o });
        assert(self.signals@ =~= old(self).signals@.update(
            i as int,
            SignalParam { phys_max, ..old(self).signals@[i as int] },
        ));
        Ok(())
    }

    /// Sets the physical value of the smallest digital code.
    pub fn set_physical_minimum(&mut self, edfsignal: i32, phys_min: i32) -> (r: Result<(), EdfError>)
        requires
            old(self).wf(),
        ensures
            final(self).wf(),
            match old(self).config_result(edfsignal) {
                Err(e) => r == Err::<(), EdfError>(e) && *final(self) == *old(self),
                Ok(i) => {
                    let p = old(self).signals@[i as int];
                    if !(PHYSICAL_LIMIT_MIN <= phys_min < p.phys_max) {
                        r == Err::<(), EdfError>(EdfError::InvalidRange) && *final(self) == *old(self)
                    } else {
                        r is Ok && old(self).with_signal(*final(self), i as int, SignalParam { phys_min, ..p })
                    }
                },
            },
    {
        let i = match self.config_target(edfsignal) {
            Err(e) => {
                return Err(e);
            },
            Ok(i) => i,
        };
        let p_max = self.signals[i].phys_max;
        if phys_min >= p_max || phys_min < PHYSICAL_LIMIT_MIN {
            return Err(EdfError::InvalidRange);
        }
        let o = self.take_signal(i);
        self.put_signal(i, SignalParam { phys_min, ..o });
        assert(self.signals@ =~= old(self).signals@.update(
            i as int,
            SignalParam { phys_min, ..old(self).signals@[i as int] },
        ));
        Ok(())
    }

    /// Sets the unit of a signal; the header keeps its first eight bytes.
    pub fn set_physical_dimension(&mut self, edfsignal: i32, phys_dim: String) -> (r: Result<(), EdfError>)
        requires
            old(self).wf(),
        ensures
            final(self).wf(),
            match old(self).config_result(edfsignal) {
                Err(e) => r == Err::<(), EdfError>(e) && *final(self) == *old(self),
                Ok(i) => r is Ok && final(self).signals@[i as int].physical_dimension@ == encode_utf8(phys_dim@)
                    && old(self).with_signal(
                    *final(self),
                    i as int,
                    SignalParam { physical_dimension: final(self).signals@[i as int].physical_dimension, ..old(self).signals@[i as int] },
                ),
            },
    {
        let i = match self.config_target(edfsignal) {
            Err(e) => {
                return Err(e);
            },
            Ok(i) => i,
        };
        let bytes = text_bytes(&phys_dim);
        let o = self.take_signal(i);
        self.put_signal(i, SignalParam { physical_dimension: bytes, ..o });
        assert(self.signals@ =~= old(self).signals@.update(
            i as int,
            SignalParam { physical_dimension: self.signals@[i as int].physical_dimension, ..old(self).signals@[i as int] },
        ));
        Ok(())
    }

    /// Sets the label of a signal; the header keeps its first sixteen bytes. The label that
    /// marks annotation signals is refused with `InvalidRange`.
    pub fn set_label(&mut self, edfsignal: i32, label: String) -> (r: Result<(), EdfError>)
        requires
            old(self).wf(),
        ensures
            final(self).wf(),
            match old(self).config_result(edfsignal) {
                Err(e) => r == Err::<(), EdfError>(e) && *final(self) == *old(self),
                Ok(i) => if crate::header::text_field(encode_utf8(label@), 16) == annotation_label(
                    old(self).filetype,
                ) {
                    r == Err::<(), EdfError>(EdfError::InvalidRange) && *final(self) == *old(self)
                } else {
                    r is Ok && final(self).signals@[i as int].label@ == encode_utf8(label@)
                        && old(self).with_signal(
                        *final(self),
                        i as int,
                        SignalParam { label: final(self).signals@[i as int].label, ..old(self).signals@[i as int] },
                    )
                },
            },
    {
        let i = match self.config_target(edfsignal) {
            Err(e) => {
                return Err(e);
            },
            Ok(i) => i,
        };
        let bytes = text_bytes(&label);
        if is_reserved_label(&bytes, self.filetype) {
            return Err(EdfError::InvalidRange);
        }
        let o = self.take_signal(i);
        self.put_signal(i, SignalParam { label: bytes, ..o });
        assert(self.signals@ =~= old(self).signals@.update(
            i as int,
            SignalParam { label: self.signals@[i as int].label, ..old(self).signals@[i as int] },
        ));
        Ok(())
    }

    /// Sets the transducer of a signal; the header keeps its first eighty bytes.
    pub fn set_transducer(&mut self, edfsignal: i32, transducer: String) -> (r: Result<(), EdfError>)
        requires
            old(self).wf(),
        ensures
            final(self).wf(),
            match old(self).config_result(edfsignal) {
                Err(e) => r == Err::<(), EdfError>(e) && *final(self) == *old(self),
                Ok(i) => r is Ok && final(self).signals@[i as int].transducer@ == encode_utf8(transducer@)
                    && old(self).with_signal(
                    *final(self),
                    i as int,
                    SignalParam { transducer: final(self).signals@[i as int].transducer, ..old(self).signals@[i as int] },
                ),
            },
    {
        let i = match self.config_target(edfsignal) {
            Err(e) => {
                return Err(e);
            },
            Ok(i) => i,
        };
        let bytes = text_bytes(&transducer);
        let o = self.take_signal(i);
        self.put_signal(i, SignalParam { transducer: bytes, ..o });
        assert(self.signals@ =~= old(self).signals@.update(
            i as int,
            SignalParam { transducer: self.signals@[i as int].transducer, ..old(self).signals@[i as int] },
        ));
        Ok(())
    }

    /// Sets the prefilter of a signal; the header keeps its first eighty bytes.
    pub fn set_prefilter(&mut self, edfsignal: i32, prefilter: String) -> (r: Result<(), EdfError>)
        requires
            old(self).wf(),
        ensures
            final(self).wf(),
            match old(self).config_result(edfsignal) {
                Err(e) => r == Err::<(), EdfError>(e) && *final(self) == *old(self),
                Ok(i) => r is Ok && final(self).signals@[i as int].prefilter@ == encode_utf8(prefilter@)
                    && old(self).with_signal(
                    *final(self),
                    i as int,
                    SignalParam { prefilter: final(self).signals@[i as int].prefilter, ..old(self).signals@[i as int] },
                ),
            },
    {
        let i = match self.config_target(edfsignal) {
            Err(e) => {
                return Err(e);
            },
            Ok(i) => i,
        };
        let bytes = text_bytes(&prefilter);
        let o = self.take_signal(i);
        self.put_signal(i, SignalParam { prefilter: bytes, ..o });
        assert(self.signals@ =~= old(self).signals@.update(
            i as int,
            SignalParam { prefilter: self.signals@[i as int].prefilter, ..old(self).signals@[i as int] },
        ));
        Ok(())
    }

    /// What a configuration call that names no signal meets first.
    pub open spec fn global_config_result(self) -> Result<(), EdfError> {
        if self.state != SessionState::OpenForWrite {
            Err(EdfError::SessionNotOpen)
        } else if !self.configurable() {
            Err(EdfError::HeaderAlreadyFinalized)
        } else {
            Ok(())
        }
    }

    /// Sets the equipment, which the header's recording field names.
    pub fn set_equipment(&mut self, equipment: String) -> (r: Result<(), EdfError>)
        requires
            old(self).wf(),
        ensures
            final(self).wf(),
            match old(self).global_config_result() {
                Err(e) => r == Err::<(), EdfError>(e) && *final(self) == *old(self),
                Ok(_) => r is Ok && *final(self) == (Edf { equipment: final(self).equipment, ..*old(self) })
                    && final(self).equipment@ == encode_utf8(equipment@),
            },
    {
        if self.state != SessionState::OpenForWrite {
            return Err(EdfError::SessionNotOpen);
        }
        if self.records.len() != 0 || self.pending.len() != 0 {
            return Err(EdfError::HeaderAlreadyFinalized);
        }
        self.equipment = text_bytes(&equipment);
        Ok(())
    }

    /// Sets where the annotation signals stand among the ordinary signals.
    pub fn set_annot_chan_idx_pos(&mut self, position: AnnotationPosition) -> (r: Result<(), EdfError>)
        requires
            old(self).wf(),
        ensures
            final(self).wf(),
            match old(self).global_config_result() {
                Err(e) => r == Err::<(), EdfError>(e) && *final(self) == *old(self),
                Ok(_) => r is Ok && *final(self) == (Edf { annotation_position: position, ..*old(self) }),
            },
    {
        if self.state != SessionState::OpenForWrite {
            return Err(EdfError::SessionNotOpen);
        }
        if self.records.len() != 0 || self.pending.len() != 0 {
            return Err(EdfError::HeaderAlreadyFinalized);
        }
        self.annotation_position = position;
        Ok(())
    }

    /// Sets how many annotation signals each record carries: from 1 to 64, and no more
    /// than leave the file at most 4096 signals.
    pub fn set_number_of_annotation_signals(&mut self, annot_signals: usize) -> (r: Result<(), EdfError>)
        requires
            old(self).wf(),
        ensures
            final(self).wf(),
            match old(self).global_config_result() {
                Err(e) => r == Err::<(), EdfError>(e) && *final(self) == *old(self),
                Ok(_) => if 1 <= annot_signals <= MAX_ANNOTATION_SIGNALS && old(self).signals@.len()
                    + annot_signals <= MAX_SIGNALS {
                    r is Ok && *final(self) == (Edf { annotation_signals: annot_signals, ..*old(self) })
                } else {
                    r == Err::<(), EdfError>(EdfError::InvalidRange) && *final(self) == *old(self)
                },
            },
    {
        if self.state != SessionState::OpenForWrite {
            return Err(EdfError::SessionNotOpen);
        }
        if self.records.len() != 0 || self.pending.len() != 0 {
            return Err(EdfError::HeaderAlreadyFinalized);
        }
        if annot_signals < 1 || annot_signals > MAX_ANNOTATION_SIGNALS || annot_signals
            > MAX_SIGNALS - self.signals.len() {
            return Err(EdfError::InvalidRange);
        }
        self.annotation_signals = annot_signals;
        Ok(())
    }

    /// Whether `other` is this session with nothing changed but the records, the
    /// pending blocks and the annotations.
    pub open spec fn same_config(self, other: Edf) -> bool {
        &&& other.signals@ == self.signals@
        &&& other.state == self.state
        &&& other.filetype == self.filetype
        &&& other.number_of_signals == self.number_of_signals
        &&& other.annotation_signals == self.annotation_signals
        &&& other.annotation_position == self.annotation_position
        &&& other.equipment == self.equipment
        &&& other.path == self.path
    }

    /// What `write_samples` meets first on these samples.
    pub open spec fn write_samples_result(self, samples: Seq<Physical>) -> Result<(), EdfError> {
        if self.state != SessionState::OpenForWrite {
            Err(EdfError::SessionNotOpen)
        } else if samples.len() != self.signals@[self.pending@.len() as int].samples_per_record {
            Err(EdfError::SampleCountMismatch)
        } else if self.records@.len() >= MAX_FIELD_VALUE {
            Err(EdfError::InvalidRange)
        } else if !(forall|j: int| 0 <= j < samples.len() ==> (#[trigger] samples[j]).valid()) {
            Err(EdfError::InvalidRange)
        } else if !(forall|j: int|
            0 <= j < samples.len() ==> in_digital_range(
                self.signals@[self.pending@.len() as int],
                #[trigger] samples[j],
            )) {
            Err(EdfError::OutOfRange)
        } else {
            Ok(())
        }
    }

    /// Writes the physical samples of the next ordinary signal of the current record;
    /// after the last signal the record is complete.
    #[verifier::rlimit(40)]
    pub fn write_samples(&mut self, samples: &Vec<Physical>) -> (r: Result<(), EdfError>)
        requires
            old(self).wf(),
        ensures
            final(self).wf(),
            r == old(self).write_samples_result(samples@),
            r is Err ==> *final(self) == *old(self),
            r is Ok ==> {
                let k = old(self).pending@.len() as int;
                let c = quantize(old(self).signals@[k], samples@);
                &&& old(self).same_config(*final(self))
                &&& final(self).annotations == old(self).annotations
                &&& if k + 1 < old(self).signals@.len() {
                    &&& final(self).records == old(self).records
                    &&& final(self).pending@.len() == k + 1
                    &&& final(self).pending@.subrange(0, k) == old(self).pending@
                    &&& final(self).pending@[k]@ == c
                } else {
                    let n = old(self).records@.len() as int;
                    &&& final(self).records@.len() == n + 1
                    &&& final(self).records@.subrange(0, n) == old(self).records@
                    &&& final(self).records@[n]@.len() == k + 1
                    &&& final(self).records@[n]@.subrange(0, k) == old(self).pending@
                    &&& final(self).records@[n]@[k]@ == c
                    &&& final(self).pending@.len() == 0
                }
            },
    {
        if self.state != SessionState::OpenForWrite {
            return Err(EdfError::SessionNotOpen);
        }
        let k = self.pending.len();
        let p = &self.signals[k];
        if samples.len() as u64 != p.samples_per_record as u64 {
            return Err(EdfError::SampleCountMismatch);
        }
        if self.records.len() as u64 >= MAX_FIELD_VALUE as u64 {
            return Err(EdfError::InvalidRange);
        }
        if !Self::all_valid(samples) {
            return Err(EdfError::InvalidRange);
        }
        let codes = match Self::quantize_buffer(p, self.filetype, samples) {
            Ok(c) => c,
            Err(e) => {
                return Err(e);
            },
        };
        let ghost c = codes@;
        self.pending.push(codes);
        if self.pending.len() == self.signals.len() {
            let mut rec: Vec<Vec<i32>> = Vec::new();
            std::mem::swap(&mut rec, &mut self.pending);
            self.records.push(rec);
        }
        Ok(())
    }

    /// Whether every value of a buffer is a fraction the scaling engine accepts.
    fn all_valid(buf: &Vec<Physical>) -> (r: bool)
        ensures
            r == forall|j: int| 0 <= j < buf@.len() ==> (#[trigger] buf@[j]).valid(),
    {
        let mut j: usize = 0;
        while j < buf.len()
            invariant
                j <= buf@.len(),
                forall|m: int| 0 <= m < j ==> (#[trigger] buf@[m]).valid(),
            decreases buf@.len() - j,
        {
            let v = buf[j];
            if v.den <= 0 || v.den > 0x8000_0000 || v.num < -0x4000_0000_0000_0000 || v.num
                > 0x4000_0000_0000_0000 {
                assert(!buf@[j as int].valid());
                return false;
            }
            j = j + 1;
        }
        true
    }

    /// The digital codes of a buffer for signal `p`, or `OutOfRange`.
    fn quantize_buffer(p: &SignalParam, ft: Filetype, buf: &Vec<Physical>) -> (r: Result<Vec<i32>, EdfError>)
        requires
            signal_ok(*p, ft),
            forall|j: int| 0 <= j < buf@.len() ==> (#[trigger] buf@[j]).valid(),
        ensures
            (forall|j: int| 0 <= j < buf@.len() ==> in_digital_range(*p, #[trigger] buf@[j])) ==> r
                is Ok && r->Ok_0@ == quantize(*p, buf@),
            !(forall|j: int| 0 <= j < buf@.len() ==> in_digital_range(*p, #[trigger] buf@[j])) ==> r
                == Err::<Vec<i32>, EdfError>(EdfError::OutOfRange),
    {
        proof {
            reveal_with_fuel(crate::sample::modulus, 4);
        }
        let sc = Scaling { dig_min: p.dig_min, dig_max: p.dig_max, phys_min: p.phys_min, phys_max: p.phys_max };
        let mut codes: Vec<i32> = Vec::new();
        let mut j: usize = 0;
        while j < buf.len()
            invariant
                sc == scaling_of(*p),
                sc.wf(),
                j <= buf@.len(),
                forall|m: int| 0 <= m < buf@.len() ==> (#[trigger] buf@[m]).valid(),
                codes@ == quantize(*p, buf@).subrange(0, j as int),
                forall|m: int| 0 <= m < j ==> in_digital_range(*p, #[trigger] buf@[m]),
            decreases buf@.len() - j,
        {
            match sc.to_digital(buf[j]) {
                Ok(c) => {
                    codes.push(c);
                    assert(codes@ =~= quantize(*p, buf@).subrange(0, j + 1));
                },
                Err(e) => {
                    assert(!in_digital_range(*p, buf@[j as int]));
                    return Err(e);
                },
            }
            j = j + 1;
        }
        assert(codes@ =~= quantize(*p, buf@));
        Ok(codes)
    }

    /// What `write_record` meets first on these buffers.
    pub open spec fn write_record_result(self, buffers: Seq<Vec<Physical>>) -> Result<(), EdfError> {
        let n = self.signals@.len() as int;
        if self.state != SessionState::OpenForWrite {
            Err(EdfError::SessionNotOpen)
        } else if self.pending@.len() != 0 || buffers.len() != n || !(forall|s: int|
            0 <= s < n ==> (#[trigger] buffers[s])@.len() == self.signals@[s].samples_per_record) {
            Err(EdfError::SampleCountMismatch)
        } else if self.records@.len() >= MAX_FIELD_VALUE {
            Err(EdfError::InvalidRange)
        } else if !(forall|s: int, j: int|
            0 <= s < n && 0 <= j < buffers[s]@.len() ==> (#[trigger] buffers[s]@[j]).valid()) {
            Err(EdfError::InvalidRange)
        } else if !(forall|s: int, j: int|
            0 <= s < n && 0 <= j < buffers[s]@.len() ==> in_digital_range(
                self.signals@[s],
                #[trigger] buffers[s]@[j],
            )) {
            Err(EdfError::OutOfRange)
        } else {
            Ok(())
        }
    }

    /// Writes one whole record: one buffer of physical samples per ordinary signal, in
    /// signal order. On any error nothing is written.
    #[verifier::rlimit(40)]
    pub fn write_record(&mut self, buffers: &Vec<Vec<Physical>>) -> (r: Result<(), EdfError>)
        requires
            old(self).wf(),
        ensures
            final(self).wf(),
            r == old(self).write_record_result(buffers@),
            r is Err ==> *final(self) == *old(self),
            r is Ok ==> {
                let n = old(self).records@.len() as int;
                &&& old(self).same_config(*final(self))
                &&& final(self).annotations == old(self).annotations
                &&& final(self).pending == old(self).pending
                &&& final(self).records@.len() == n + 1
                &&& final(self).records@.subrange(0, n) == old(self).records@
                &&& final(self).records@[n]@.len() == old(self).signals@.len()
                &&& forall|s: int|
                    0 <= s < old(self).signals@.len() ==> (#[trigger] final(self).records@[n]@[s])@
                        == quantize(old(self).signals@[s], buffers@[s]@)
            },
    {
        if self.state != SessionState::OpenForWrite {
            return Err(EdfError::SessionNotOpen);
        }
        let n = self.signals.len();
        if self.pending.len() != 0 || buffers.len() != n {
            return Err(EdfError::SampleCountMismatch);
        }
        let mut s: usize = 0;
        while s < n
            invariant
                *self == *old(self),
                old(self).wf(),
                old(self).state == SessionState::OpenForWrite,
                old(self).pending@.len() == 0,
                n == self.signals@.len(),
                buffers@.len() == n,
                s <= n,
                forall|k: int| 0 <= k < s ==> (#[trigger] buffers@[k])@.len() == self.signals@[k].samples_per_record,
            decreases n - s,
        {
            if buffers[s].len() as u64 != self.signals[s].samples_per_record as u64 {
                return Err(EdfError::SampleCountMismatch);
            }
            s = s + 1;
        }
        if self.records.len() as u64 >= MAX_FIELD_VALUE as u64 {
            return Err(EdfError::InvalidRange);
        }
        let mut s: usize = 0;
        while s < n
            invariant
                *self == *old(self),
                old(self).wf(),
                old(self).state == SessionState::OpenForWrite,
                old(self).pending@.len() == 0,
                n == self.signals@.len(),
                buffers@.len() == n,
                s <= n,
                forall|k: int| 0 <= k < n ==> (#[trigger] buffers@[k])@.len() == self.signals@[k].samples_per_record,
                old(self).records@.len() < MAX_FIELD_VALUE,
                forall|k: int, j: int|
                    0 <= k < s && 0 <= j < buffers@[k]@.len() ==> (#[trigger] buffers@[k]@[j]).valid(),
            decreases n - s,
        {
            if !Self::all_valid(&buffers[s]) {
                return Err(EdfError::InvalidRange);
            }
            s = s + 1;
        }
        let mut rec: Vec<Vec<i32>> = Vec::new();
        let mut s: usize = 0;
        while s < n
            invariant
                *self == *old(self),
                old(self).wf(),
                old(self).state == SessionState::OpenForWrite,
                old(self).pending@.len() == 0,
                n == self.signals@.len(),
                buffers@.len() == n,
                s <= n,
                forall|k: int| 0 <= k < n ==> (#[trigger] buffers@[k])@.len() == self.signals@[k].samples_per_record,
                old(self).records@.len() < MAX_FIELD_VALUE,
                forall|k: int, j: int|
                    0 <= k < n && 0 <= j < buffers@[k]@.len() ==> (#[trigger] buffers@[k]@[j]).valid(),
                forall|k: int, j: int|
                    0 <= k < s && 0 <= j < buffers@[k]@.len() ==> in_digital_range(
                        self.signals@[k],
                        #[trigger] buffers@[k]@[j],
                    ),
                rec@.len() == s,
                forall|k: int| 0 <= k < s ==> (#[trigger] rec@[k])@ == quantize(self.signals@[k], buffers@[k]@),
            decreases n - s,
        {
            let p = &self.signals[s];
            match Self::quantize_buffer(p, self.filetype, &buffers[s]) {
                Ok(codes) => {
                    rec.push(codes);
                },
                Err(e) => {
                    return Err(e);
                },
            }
            s = s + 1;
        }
        proof {
            assert forall|k: int| 0 <= k < n implies codes_ok(#[trigger] rec@[k]@, self.signals@[k]) by {
                assert(rec@[k]@ == quantize(self.signals@[k], buffers@[k]@));
                assert forall|j: int| 0 <= j < rec@[k]@.len() implies self.signals@[k].dig_min
                    <= #[trigger] rec@[k]@[j] <= self.signals@[k].dig_max by {
                    assert(in_digital_range(self.signals@[k], buffers@[k]@[j]));
                }
            }
        }
        self.records.push(rec);
        Ok(())
    }

    /// Queues an annotation: onset and duration in 100 ns units, a negative duration for
    /// none. Only the first annotation, the one that marks the recording start, may have a
    /// negative onset. It goes into the annotation signals of the records when the file is
    /// finished.
    pub fn write_annotation(&mut self, onset: i64, duration: i64, description: String) -> (r: Result<
        (),
        EdfError,
    >)
        requires
            old(self).wf(),
        ensures
            final(self).wf(),
            ({
                let m = annotation_model_of(onset, duration, encode_utf8(description@));
                if old(self).state != SessionState::OpenForWrite {
                    r == Err::<(), EdfError>(EdfError::SessionNotOpen)
                } else if onset == i64::MIN || (onset < 0 && old(self).annotations@.len() > 0) {
                    r == Err::<(), EdfError>(EdfError::InvalidRange)
                } else if !valid_model(m) {
                    r == Err::<(), EdfError>(EdfError::ForbiddenControlByte)
                } else if tal(m).len() > ANNOTATION_ROOM {
                    r == Err::<(), EdfError>(EdfError::AnnotationOverflow)
                } else {
                    r is Ok
                }
            }),
            r is Err ==> *final(self) == *old(self),
            r is Ok ==> {
                &&& old(self).same_config(*final(self))
                &&& final(self).records == old(self).records
                &&& final(self).pending == old(self).pending
                &&& final(self).annotations@.len() == old(self).annotations@.len() + 1
                &&& final(self).annotations@.subrange(0, old(self).annotations@.len() as int)
                    == old(self).annotations@
                &&& final(self).annotations@.last().model() == annotation_model_of(
                    onset,
                    duration,
                    encode_utf8(description@),
                )
            },
    {
        if self.state != SessionState::OpenForWrite {
            return Err(EdfError::SessionNotOpen);
        }
        if onset < 0 && self.annotations.len() > 0 {
            return Err(EdfError::InvalidRange);
        }
        let a = Annotation {
            onset,
            duration: if duration < 0 {
                None
            } else {
                Some(duration)
            },
            description: text_bytes(&description),
        };
        let mut encoded: Vec<u8> = Vec::new();
        match encode_annotation(&mut encoded, &a) {
            Err(e) => {
                return Err(e);
            },
            Ok(()) => {},
        }
        assert(encoded@ =~= tal(a.model()));
        if encoded.len() > ANNOTATION_ROOM {
            return Err(EdfError::AnnotationOverflow);
        }
        self.annotations.push(a);
        Ok(())
    }

    /// The number of signals in the file, annotation signals included.
    pub open spec fn total_signals(self) -> int {
        self.signals@.len() + self.annotation_signals
    }

    /// Samples per record of every signal of the file, in file order.
    pub open spec fn all_spr(self) -> Seq<u32> {
        Seq::new(
            self.total_signals() as nat,
            |i: int|
                match slot(self.annotation_position, self.signals@.len() as int, self.annotation_signals as int, i) {
                    Some(s) => self.signals@[s].samples_per_record,
                    None => annotation_spr(self.filetype) as u32,
                },
        )
    }

    /// Whether `h` is the header of the file this session produces.
    pub open spec fn header_matches(self, h: Header) -> bool {
        &&& h.filetype == self.filetype
        &&& h.records == self.records@.len()
        &&& h.duration_seconds == 1
        &&& h.patient@ == seq![88u8, 32, 88, 32, 88, 32, 88]
        &&& h.recording@ == seq![83u8, 116, 97, 114, 116, 100, 97, 116, 101, 32, 88, 32, 88, 32, 88, 32]
            + self.equipment@
        &&& h.startdate@ == seq![48u8, 49, 46, 48, 49, 46, 56, 53]
        &&& h.starttime@ == seq![48u8, 48, 46, 48, 48, 46, 48, 48]
        &&& h.signals@.len() == self.total_signals()
        &&& forall|i: int|
            0 <= i < h.signals@.len() ==> match slot(
                self.annotation_position,
                self.signals@.len() as int,
                self.annotation_signals as int,
                i,
            ) {
                Some(s) => same_param(#[trigger] h.signals@[i], self.signals@[s]),
                None => is_annotation_param(h.signals@[i], self.filetype),
            }
    }

    /// Where sample `j` of ordinary signal `s` in record `r` stands in the file.
    pub open spec fn sample_pos(self, r: int, s: int, j: int) -> int {
        let w = self.filetype.spec_width();
        256 + 256 * self.total_signals() + r * record_len(self.all_spr(), w) + block_offset(
            self.all_spr(),
            w,
            ordinary_index(
                self.annotation_position,
                self.signals@.len() as int,
                self.annotation_signals as int,
                s,
            ),
        ) + j * w
    }

    /// The start of the time-keeping entry that annotation signal `i` of record `rr`
    /// opens with: only the first annotation signal of a record has one.
    pub open spec fn block_start(self, rr: int, i: int) -> Option<i64> {
        if i == insert_index(self.annotation_position, self.signals@.len() as int) {
            Some((rr * RECORD_TICKS) as i64)
        } else {
            None
        }
    }

    /// How many queued annotations are placed before annotation signal `i` of record
    /// `rr` is filled: each block takes the next ones in order while they fit.
    pub open spec fn fill_before(self, rr: int, i: int) -> int
        decreases rr, i,
    {
        if rr < 0 {
            0
        } else if i <= 0 {
            if rr == 0 {
                0
            } else {
                self.fill_before(rr - 1, self.total_signals())
            }
        } else {
            let prev = self.fill_before(rr, i - 1);
            match slot(self.annotation_position, self.signals@.len() as int, self.annotation_signals as int, i - 1) {
                Some(_) => prev,
                None => crate::annotation::greedy_end(
                    crate::annotation::tals(crate::annotation::block_head(self.block_start(rr, i - 1))).len() as int,
                    crate::annotation::models(self.annotations@),
                    prev,
                    ANNOTATION_BYTES as int,
                ),
            }
        }
    }

    /// How many queued annotations the first `rr` records hold.
    pub open spec fn file_fill(self, rr: int) -> int {
        if rr <= 0 {
            0
        } else {
            self.fill_before(rr - 1, self.total_signals())
        }
    }

    /// The bytes of annotation signal `i` in record `rr`: its entries, then null bytes.
    pub open spec fn annotation_block_bytes(self, rr: int, i: int) -> Seq<u8> {
        let v = crate::annotation::block_head(self.block_start(rr, i)) + crate::annotation::models(
            self.annotations@.subrange(self.fill_before(rr, i), self.fill_before(rr, i + 1)),
        );
        crate::annotation::tals(v) + Seq::new(
            (ANNOTATION_BYTES - crate::annotation::tals(v).len()) as nat,
            |k: int| 0u8,
        )
    }

    /// Where signal `i`'s block of record `rr` starts in the file.
    pub open spec fn block_pos(self, rr: int, i: int) -> int {
        let w = self.filetype.spec_width();
        256 + 256 * self.total_signals() + rr * record_len(self.all_spr(), w) + block_offset(
            self.all_spr(),
            w,
            i,
        )
    }

    pub proof fn lemma_fill_bounds(self, rr: int, i: int)
        requires
            0 <= rr,
            0 <= i <= self.total_signals(),
        ensures
            0 <= self.fill_before(rr, i) <= self.annotations@.len(),
            i < self.total_signals() ==> self.fill_before(rr, i) <= self.fill_before(rr, i + 1),
        decreases rr, i,
    {
        if i > 0 {
            self.lemma_fill_bounds(rr, i - 1);
        } else if rr > 0 {
            self.lemma_fill_bounds(rr - 1, self.total_signals());
        }
        if i > 0 {
            let prev = self.fill_before(rr, i - 1);
            crate::annotation::lemma_greedy_bounds(
                crate::annotation::tals(crate::annotation::block_head(self.block_start(rr, i - 1))).len() as int,
                crate::annotation::models(self.annotations@),
                prev,
                ANNOTATION_BYTES as int,
            );
        }
        if i < self.total_signals() {
            let prev = self.fill_before(rr, i);
            crate::annotation::lemma_greedy_bounds(
                crate::annotation::tals(crate::annotation::block_head(self.block_start(rr, i))).len() as int,
                crate::annotation::models(self.annotations@),
                prev,
                ANNOTATION_BYTES as int,
            );
        }
    }

    /// Whether `b` is a file this session produces: its header, its length, every
    /// written sample at its place, and every annotation block.
    #[verifier::opaque]
    pub open spec fn file_of(self, b: Seq<u8>) -> bool {
        let n = self.signals@.len() as int;
        &&& b.len() == 256 + 256 * self.total_signals() + self.records@.len() * record_len(
            self.all_spr(),
            self.filetype.spec_width(),
        )
        &&& exists|h: Header|
            self.header_matches(h) && header_fits(h) && #[trigger] header_bytes(h) == b.subrange(
                0,
                256 + 256 * self.total_signals(),
            )
        &&& forall|rr: int, s: int, j: int|
            0 <= rr < self.records@.len() && 0 <= s < n && 0 <= j < self.signals@[s].samples_per_record
                ==> {
                let pos = self.sample_pos(rr, s, j);
                sample_value(b.subrange(pos, pos + self.filetype.spec_width()))
                    == #[trigger] self.records@[rr]@[s]@[j]
            }
        &&& forall|rr: int, i: int|
            0 <= rr < self.records@.len() && 0 <= i < self.total_signals() && slot(
                self.annotation_position,
                n,
                self.annotation_signals as int,
                i,
            ) is None ==> #[trigger] b.subrange(self.block_pos(rr, i), self.block_pos(rr, i) + ANNOTATION_BYTES)
                == self.annotation_block_bytes(rr, i)
    }

    #[verifier::rlimit(40)]
    fn build_header(&self) -> (h: Header)
        requires
            self.wf(),
            self.state == SessionState::OpenForWrite,
        ensures
            self.header_matches(h),
            header_fits(h),
    {
        let n = self.signals.len();
        let a = self.annotation_signals;
        let k = match self.annotation_position {
            AnnotationPosition::Start => 0,
            AnnotationPosition::Middle => n / 2,
            AnnotationPosition::End => n,
        };
        let mut sigs: Vec<SignalParam> = Vec::new();
        let mut i: usize = 0;
        while i < n + a
            invariant
                self.wf(),
                self.state == SessionState::OpenForWrite,
                n == self.signals@.len(),
                a == self.annotation_signals,
                k == insert_index(self.annotation_position, n as int),
                i <= n + a,
                sigs@.len() == i,
                forall|m: int| 0 <= m < i ==> signal_fits(#[trigger] sigs@[m]),
                forall|m: int|
                    0 <= m < i ==> match slot(self.annotation_position, n as int, a as int, m) {
                        Some(s) => same_param(#[trigger] sigs@[m], self.signals@[s]),
                        None => is_annotation_param(sigs@[m], self.filetype),
                    },
            decreases n + a - i,
        {
            if i < k || i >= k + a {
                let s = if i < k {
                    i
                } else {
                    i - a
                };
                let p = copy_param(&self.signals[s]);
                proof {
                    let q = self.signals@[s as int];
                    assert(signal_ok(q, self.filetype));
                    reveal_with_fuel(crate::sample::modulus, 4);
                    reveal_with_fuel(crate::decimal::pow10, 9);
                    lemma_fits(q.phys_min as int, 8);
                    lemma_fits(q.phys_max as int, 8);
                    lemma_fits(q.dig_min as int, 8);
                    lemma_fits(q.dig_max as int, 8);
                    lemma_fits(q.samples_per_record as int, 8);
                }
                sigs.push(p);
            } else {
                sigs.push(annotation_param(self.filetype));
            }
            i = i + 1;
        }
        let mut recording = vec![83u8, 116, 97, 114, 116, 100, 97, 116, 101, 32, 88, 32, 88, 32, 88, 32];
        let mut eq = copy_bytes(&self.equipment);
        recording.append(&mut eq);
        proof {
            reveal_with_fuel(crate::decimal::pow10, 9);
            lemma_fits(self.records@.len() as int, 8);
            lemma_fits(1, 8);
        }
        Header {
            filetype: self.filetype,
            patient: vec![88u8, 32, 88, 32, 88, 32, 88],
            recording,
            startdate: vec![48u8, 49, 46, 48, 49, 46, 56, 53],
            starttime: vec![48u8, 48, 46, 48, 48, 46, 48, 48],
            records: self.records.len() as u32,
            duration_seconds: 1,
            signals: sigs,
        }
    }

    /// Finishes the session: lays out the header and every record, places the queued
    /// annotations in the records' annotation signals, in order, and gives the file's
    /// bytes. The session is then closed.
    #[verifier::rlimit(40)]
    pub fn finish(&mut self) -> (r: Result<Vec<u8>, EdfError>)
        requires
            old(self).wf(),
        ensures
            final(self).wf(),
            old(self).state != SessionState::OpenForWrite ==> r == Err::<Vec<u8>, EdfError>(
                EdfError::SessionNotOpen,
            ),
            old(self).state == SessionState::OpenForWrite && old(self).pending@.len() != 0 ==> r
                == Err::<Vec<u8>, EdfError>(EdfError::SampleCountMismatch),
            old(self).state == SessionState::OpenForWrite && old(self).pending@.len() == 0 ==> if old(
                self,
            ).file_fill(old(self).records@.len() as int) == old(self).annotations@.len() {
                r is Ok
            } else {
                r == Err::<Vec<u8>, EdfError>(EdfError::AnnotationOverflow)
            },
            r is Err ==> *final(self) == *old(self),
            r is Ok ==> final(self).state == SessionState::Finalized && old(self).same_config(
                Edf { state: SessionState::OpenForWrite, ..*final(self) },
            ) && old(self).file_of(r->Ok_0@),
    {
        if self.state != SessionState::OpenForWrite {
            return Err(EdfError::SessionNotOpen);
        }
        if self.pending.len() != 0 {
            return Err(EdfError::SampleCountMismatch);
        }
        let h = self.build_header();
        let mut out = encode_header(&h);
        let n = self.signals.len();
        let a = self.annotation_signals;
        let k = match self.annotation_position {
            AnnotationPosition::Start => 0,
            AnnotationPosition::Middle => n / 2,
            AnnotationPosition::End => n,
        };
        let w = self.filetype.width();
        let ghost hlen = 256 + 256 * self.total_signals();
        let ghost spr_all = self.all_spr();
        let ghost len = record_len(spr_all, w as nat);
        let mut spr: Vec<u32> = Vec::new();
        let mut i: usize = 0;
        while i < n + a
            invariant
                self.wf(),
                self.state == SessionState::OpenForWrite,
                n == self.signals@.len(),
                a == self.annotation_signals,
                k == insert_index(self.annotation_position, n as int),
                w == self.filetype.spec_width(),
                spr_all == self.all_spr(),
                i <= n + a,
                spr@ == spr_all.subrange(0, i as int),
            decreases n + a - i,
        {
            if i < k || i >= k + a {
                let s = if i < k {
                    i
                } else {
                    i - a
                };
                spr.push(self.signals[s].samples_per_record);
            } else {
                spr.push((ANNOTATION_BYTES / w) as u32);
            }
            assert(spr@ =~= spr_all.subrange(0, i + 1));
            i = i + 1;
        }
        assert(spr@ =~= spr_all);
        let mut next: usize = 0;
        let mut r: usize = 0;
        assert(next == self.file_fill(0));
        while r < self.records.len()
            invariant
                self.wf(),
                self.state == SessionState::OpenForWrite,
                *self == *old(self),
                n == self.signals@.len(),
                a == self.annotation_signals,
                k == insert_index(self.annotation_position, n as int),
                w == self.filetype.spec_width(),
                spr_all == self.all_spr(),
                spr@ == spr_all,
                len == record_len(spr_all, w as nat),
                hlen == 256 + 256 * self.total_signals(),
                r <= self.records@.len(),
                next <= self.annotations@.len(),
                next == self.file_fill(r as int),
                out@.len() == hlen + r * len,
                self.header_matches(h),
                out@.subrange(0, hlen) == header_bytes(h),
                forall|rr: int, s: int, j: int|
                    0 <= rr < r && 0 <= s < n && 0 <= j < self.signals@[s].samples_per_record ==> {
                        let pos = self.sample_pos(rr, s, j);
                        sample_value(out@.subrange(pos, pos + w)) == #[trigger] self.records@[rr]@[s]@[j]
                    },
                forall|rr: int, i: int|
                    0 <= rr < r && 0 <= i < n + a && slot(self.annotation_position, n as int, a as int, i) is None
                        ==> #[trigger] out@.subrange(self.block_pos(rr, i), self.block_pos(rr, i) + ANNOTATION_BYTES)
                        == self.annotation_block_bytes(rr, i),
            decreases self.records@.len() - r,
        {
            let mut blocks: Vec<Block> = Vec::new();
            let mut i: usize = 0;
            assert(next == self.fill_before(r as int, 0));
            while i < n + a
                invariant
                    self.wf(),
                    self.state == SessionState::OpenForWrite,
                    n == self.signals@.len(),
                    a == self.annotation_signals,
                    k == insert_index(self.annotation_position, n as int),
                    w == self.filetype.spec_width(),
                    spr@ == spr_all,
                    spr_all == self.all_spr(),
                    r < self.records@.len(),
                    i <= n + a,
                    next <= self.annotations@.len(),
                    next == self.fill_before(r as int, i as int),
                    blocks@.len() == i,
                    forall|m: int| 0 <= m < i ==> crate::record::block_fits(#[trigger] blocks@[m], spr@[m], w as nat),
                    forall|m: int| 0 <= m < i ==> crate::record::block_codes_fit(#[trigger] blocks@[m], w as nat),
                    forall|m: int|
                        0 <= m < i ==> match slot(self.annotation_position, n as int, a as int, m) {
                            Some(s) => (#[trigger] blocks@[m]) is Samples && blocks@[m]->Samples_0@
                                == self.records@[r as int]@[s]@,
                            None => blocks@[m] is Annotations && blocks@[m]->Annotations_0@
                                == self.annotation_block_bytes(r as int, m),
                        },
                decreases n + a - i,
            {
                if i < k || i >= k + a {
                    let s = if i < k {
                        i
                    } else {
                        i - a
                    };
                    let codes = copy_codes(&self.records[r][s]);
                    proof {
                        reveal_with_fuel(crate::sample::modulus, 4);
                        assert(codes_ok(self.records@[r as int]@[s as int]@, self.signals@[s as int]));
                        assert(signal_ok(self.signals@[s as int], self.filetype));
                    }
                    blocks.push(Block::Samples(codes));
                } else {
                    let start = if i == k {
                        proof {
                            lemma_keeping_len(r as nat);
                            crate::annotation::lemma_tals_push(Seq::empty(), keeping(r * 10_000_000));
                            assert(crate::annotation::block_head(Some((r * 10_000_000) as i64)) =~= Seq::<
                                crate::annotation::AnnotationModel,
                            >::empty().push(keeping(r * 10_000_000)));
                        }
                        Some(r as i64 * RECORD_TICKS)
                    } else {
                        None
                    };
                    assert(crate::annotation::tals(crate::annotation::block_head(start)).len() <= ANNOTATION_BYTES);
                    assert((ANNOTATION_BYTES / w) * w == ANNOTATION_BYTES);
                    match fill_annotation_block(start, &self.annotations, next, ANNOTATION_BYTES) {
                        Ok((bytes, to)) => {
                            assert(start == self.block_start(r as int, i as int));
                            assert(to == self.fill_before(r as int, i + 1));
                            assert(bytes@ == self.annotation_block_bytes(r as int, i as int));
                            next = to;
                            blocks.push(Block::Annotations(bytes));
                        },
                        Err(e) => {
                            return Err(e);
                        },
                    }
                }
                i = i + 1;
            }
            assert(next == self.file_fill(r + 1));
            let rec = pack_record(&blocks, &spr, w);
            let mut bytes = match rec {
                Ok(b) => b,
                Err(e) => {
                    return Err(e);
                },
            };
            let ghost prev = out@;
            let ghost rb = bytes@;
            let ghost bl = blocks@;
            out.append(&mut bytes);
            proof {
                crate::record::lemma_record_bytes_len(bl, spr@, w as nat, bl.len() as int);
                assert(out@.len() == hlen + (r + 1) * len) by (nonlinear_arith)
                    requires
                        out@.len() == prev.len() + rb.len(),
                        prev.len() == hlen + r * len,
                        rb.len() == len,
                ;
                assert(out@.subrange(0, hlen) =~= prev.subrange(0, hlen));
                assert forall|rr: int, s: int, j: int|
                    0 <= rr < r + 1 && 0 <= s < n && 0 <= j
                        < self.signals@[s].samples_per_record implies {
                        let pos = self.sample_pos(rr, s, j);
                        sample_value(out@.subrange(pos, pos + w)) == #[trigger] self.records@[rr]@[s]@[j]
                    } by {
                    let m = ordinary_index(self.annotation_position, n as int, a as int, s);
                    lemma_ordinary_index(self.annotation_position, n as int, a as int, s);
                    assert(spr_all[m] == self.signals@[s].samples_per_record);
                    lemma_sample_in_record(spr_all, w as nat, m, j);
                    let pos = self.sample_pos(rr, s, j);
                    let off = block_offset(spr_all, w as nat, m) + j * w;
                    assert(pos == hlen + rr * len + off);
                    if rr < r {
                        assert(rr * len + len <= r * len) by (nonlinear_arith)
                            requires
                                rr < r,
                                len >= 0,
                        ;
                        assert(out@.subrange(pos, pos + w) =~= prev.subrange(pos, pos + w));
                    } else {
                        assert(bl[m] is Samples);
                        crate::record::lemma_record_sample_round_trip(bl, spr@, w as nat, m, j);
                        assert(out@.subrange(pos, pos + w) =~= rb.subrange(off, off + w));
                    }
                }
                assert forall|rr: int, i: int|
                    0 <= rr < r + 1 && 0 <= i < n + a && slot(self.annotation_position, n as int, a as int, i) is None
                        implies #[trigger] out@.subrange(self.block_pos(rr, i), self.block_pos(rr, i) + ANNOTATION_BYTES)
                        == self.annotation_block_bytes(rr, i) by {
                    assert(spr_all[i] == annotation_spr(self.filetype) as u32);
                    assert((ANNOTATION_BYTES / w) * w == ANNOTATION_BYTES);
                    crate::record::lemma_offset_monotone(spr_all, w as nat, i + 1, (n + a) as int);
                    crate::record::lemma_offset_monotone(spr_all, w as nat, i, i + 1);
                    let off = block_offset(spr_all, w as nat, i);
                    assert(block_offset(spr_all, w as nat, i + 1) == off + ANNOTATION_BYTES);
                    let pos = self.block_pos(rr, i);
                    assert(pos == hlen + rr * len + off);
                    if rr < r {
                        assert(rr * len + len <= r * len) by (nonlinear_arith)
                            requires
                                rr < r,
                                len >= 0,
                        ;
                        assert(out@.subrange(pos, pos + ANNOTATION_BYTES) =~= prev.subrange(pos, pos + ANNOTATION_BYTES));
                    } else {
                        crate::record::lemma_record_bytes(bl, spr@, w as nat, bl.len() as int, i);
                        assert(out@.subrange(pos, pos + ANNOTATION_BYTES) =~= rb.subrange(off, off + ANNOTATION_BYTES));
                    }
                }
            }
            r = r + 1;
        }
        if next < self.annotations.len() {
            return Err(EdfError::AnnotationOverflow);
        }
        proof {
            reveal(Edf::file_of);
        }
        self.state = SessionState::Finalized;
        Ok(out)
    }
}

} // verus!
