//! The mathematical shape of decoded values and of decoding outcomes.

use vstd::prelude::*;

verus! {

/// What a decoded value denotes, independent of how it is stored: byte-string
/// payloads are byte sequences, integers are unbounded, a dictionary is a
/// mapping from key text to value (keys unique, order immaterial).
#[verifier::ext_equal]
pub enum SpecValue {
    Bytes(Seq<u8>),
    Integer(int),
    List(Seq<SpecValue>),
    Dictionary(Map<Seq<u8>, SpecValue>),
}

/// The error taxonomy, with byte offsets as unbounded integers.
///
/// `StructuralMismatch` is recoverable: the token at the offset is not of the
/// attempted kind, so an alternative may be tried (or a repetition may end).
/// The other three are fatal: the token is of the right kind but its content
/// is invalid, and the whole parse must abort.  The offset of a fatal error
/// is where the malformed token begins; the offset of a structural mismatch
/// is where the input stopped matching.
pub enum SpecError {
    StructuralMismatch(int),
    InvalidInteger(int),
    IntegerOverflow(int),
    InvalidByteStringLength(int),
}

impl SpecError {
    /// Whether this error aborts the whole parse instead of letting the
    /// dispatcher try another grammar alternative.
    pub open spec fn is_fatal(self) -> bool {
        !(self is StructuralMismatch)
    }
}

/// The outcome of decoding one value at one position: the value denoted and
/// the position just past its encoding, or an error.
#[verifier::ext_equal]
pub enum SpecOutcome {
    Parsed(SpecValue, int),
    Failed(SpecError),
}

impl SpecOutcome {
    /// A failure that permits trying the next grammar alternative.
    pub open spec fn recoverable(self) -> bool {
        self matches SpecOutcome::Failed(e) && !e.is_fatal()
    }
}

/// The outcome of decoding a whole buffer: the sequence of top-level values,
/// or an error.
#[verifier::ext_equal]
pub enum SpecTop {
    Parsed(Seq<SpecValue>),
    Failed(SpecError),
}

} // verus!
