use vstd::prelude::*;

verus! {

/// Every way an operation of the codec can fail.
#[derive(Debug, Clone, Copy, PartialEq, Eq, Structural)]
pub enum EdfError {
    /// The header could not be parsed: the byte offset of the offending field.
    MalformedHeader(u32),
    /// A session is already open on this handle.
    AlreadyOpen,
    /// A minimum is not below its maximum, or a value is outside what the format admits.
    InvalidRange,
    /// A signal index does not name a configured signal.
    InvalidSignalIndex,
    /// The digital minimum equals the digital maximum.
    ScalingDegenerate,
    /// Configuration was attempted after the first record was written.
    HeaderAlreadyFinalized,
    /// The session is not open for the requested operation.
    SessionNotOpen,
    /// A buffer does not hold exactly one record's worth of samples.
    SampleCountMismatch,
    /// A seek target lies outside the recorded data.
    SeekOutOfRange,
    /// The declared record count disagrees with the data length.
    InconsistentRecordCount,
    /// An annotation does not fit the space reserved for it.
    AnnotationOverflow,
    /// Annotation text does not follow the annotation protocol.
    MalformedAnnotationText,
    /// Annotation text holds a control byte.
    ForbiddenControlByte,
    /// A physical value quantises outside the digital range.
    OutOfRange,
}

} // verus!
