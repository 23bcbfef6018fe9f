use crate::parameters::HEADER_LENGTH;
use crate::provider::Provider;
use vstd::prelude::*;

verus! {

/// A length bound that a plaintext or ciphertext input failed to meet.
#[derive(Clone, Copy, Debug, PartialEq, Eq, Structural)]
pub enum LengthRequirement {
    /// Exactly this many bytes are required.
    Exactly(usize),
    /// At least this many bytes are required.
    AtLeast(usize),
    /// At most this many bytes are permitted.
    AtMost(usize),
    /// A length in this inclusive range is required.
    Between { minimum: usize, maximum: usize },
}

/// Errors returned by FLOE operations.
#[derive(Clone, Copy, Debug, PartialEq, Eq, Structural)]
#[allow(inconsistent_fields)]
#[non_exhaustive]
pub enum Error {
    /// A key did not have the required 32-byte length.
    InvalidKeyLength { actual: usize },
    /// A segment length lies outside the supported range, or an operation
    /// combined values from different FLOE parameter sets.
    InvalidParameters,
    /// A plaintext segment did not meet its required length.
    InvalidPlaintextLength { actual: usize, required: LengthRequirement },
    /// A header did not have the length required by [`crate::Header`].
    InvalidHeaderLength { actual: usize },
    /// The encoded parameters in a header are unsupported or do not match the
    /// selected parameters.
    InvalidHeaderParameters,
    /// Header authentication failed.
    InvalidHeaderTag,
    /// A ciphertext segment did not meet its required length, or its encoded
    /// final-length prefix contradicted its actual length.
    InvalidCiphertextLength { actual: usize, required: LengthRequirement },
    /// An internal segment did not begin with `0xffff_ffff`.
    InvalidSegmentPrefix,
    /// AES-GCM authentication failed.
    AuthenticationFailed,
    /// An online encryptor or decryptor was used after its final segment.
    Closed,
    /// A message or online operation ended without producing or authenticating
    /// a final segment.
    Truncated,
    /// A segment position exceeded the AES-GCM FLOE limit.
    SegmentLimit,
    /// A caller-provided output buffer was too small.
    OutputTooSmall { actual: usize, required: usize },
    /// A segment buffer was used in the wrong preparation state.
    InvalidBufferState,
    /// An operation omitted its provider while multiple providers were compiled.
    ProviderSelectionRequired,
    /// A length calculation overflowed.
    LengthOverflow,
    /// The selected provider could not obtain cryptographically secure bytes.
    RngFailure,
    /// The selected cryptographic backend rejected an otherwise valid operation.
    CryptoFailure,
}

/// The character of a decimal digit.
pub open spec fn digit(value: int) -> char {
    (value + 48) as char
}

/// The decimal notation of `value`, without leading zeros.
pub open spec fn decimal(value: nat) -> Seq<char>
    decreases value,
{
    if value < 10 {
        seq![digit(value as int)]
    } else {
        decimal(value / 10).push(digit((value % 10) as int))
    }
}

/// The number that decimal digits write.
pub open spec fn number_of(digits: Seq<char>) -> int
    decreases digits.len(),
{
    if digits.len() == 0 {
        0
    } else {
        number_of(digits.drop_last()) * 10 + (digits.last() as int - '0' as int)
    }
}

/// Decimal notation is read back: it is made of the digits from `0` to `9`, it
/// writes the number, and it begins with `0` only for the number zero, so that
/// no two numbers share it.
pub proof fn lemma_decimal_is_read_back(value: nat)
    ensures
        decimal(value).len() > 0,
        forall|i: int|
            0 <= i < decimal(value).len() ==> '0' <= #[trigger] decimal(value)[i] <= '9',
        number_of(decimal(value)) == value,
        decimal(value)[0] == '0' <==> value == 0,
        value == 0 ==> decimal(value).len() == 1,
    decreases value,
{
    reveal_with_fuel(number_of, 2);
    if value < 10 {
        assert(decimal(value).drop_last() =~= Seq::empty());
    } else {
        lemma_decimal_is_read_back(value / 10);
        assert(decimal(value).drop_last() =~= decimal(value / 10));
        assert(decimal(value)[0] == decimal(value / 10)[0]);
    }
}

/// The names of the first `count` compiled providers, separated by commas.
pub open spec fn provider_list(count: int) -> Seq<char>
    decreases count,
{
    if count <= 0 {
        Seq::empty()
    } else if count == 1 {
        Provider::COMPILED@[0].text()
    } else {
        provider_list(count - 1) + ", "@ + Provider::COMPILED@[count - 1].text()
    }
}

impl LengthRequirement {
    /// The wording of this requirement.
    pub open spec fn text(self) -> Seq<char> {
        match self {
            LengthRequirement::Exactly(length) => "exactly "@ + decimal(length as nat),
            LengthRequirement::AtLeast(length) => "at least "@ + decimal(length as nat),
            LengthRequirement::AtMost(length) => "at most "@ + decimal(length as nat),
            LengthRequirement::Between { minimum, maximum } => "between "@ + decimal(
                minimum as nat,
            ) + " and "@ + decimal(maximum as nat),
        }
    }

    fn write_text(self, out: &mut String)
        ensures
            final(out)@ == old(out)@ + self.text(),
    {
        match self {
            LengthRequirement::Exactly(length) => {
                out.append("exactly ");
                append_decimal(out, length as u64);
            },
            LengthRequirement::AtLeast(length) => {
                out.append("at least ");
                append_decimal(out, length as u64);
            },
            LengthRequirement::AtMost(length) => {
                out.append("at most ");
                append_decimal(out, length as u64);
            },
            LengthRequirement::Between { minimum, maximum } => {
                out.append("between ");
                append_decimal(out, minimum as u64);
                out.append(" and ");
                append_decimal(out, maximum as u64);
            },
        }
        assert(out@ =~= old(out)@ + self.text());
    }

    /// Returns this requirement as text.
    pub fn to_string(&self) -> (text: String)
        ensures
            text@ == self.text(),
    {
        let mut text = String::new();
        self.write_text(&mut text);
        assert(text@ =~= self.text());
        text
    }
}

impl Error {
    /// The message that describes this error.
    pub open spec fn text(self) -> Seq<char> {
        match self {
            Error::InvalidKeyLength { actual } => "FLOE keys must be 32 bytes, got "@ + decimal(
                actual as nat,
            ),
            Error::InvalidParameters => "FLOE parameter sets do not match"@,
            Error::InvalidPlaintextLength { actual, required } =>
                "invalid plaintext segment length "@ + decimal(actual as nat) + "; required "@
                + required.text(),
            Error::InvalidHeaderLength { actual } => "FLOE headers must be "@ + decimal(
                HEADER_LENGTH as nat,
            ) + " bytes, got "@ + decimal(actual as nat),
            Error::InvalidHeaderParameters =>
                "header parameters do not match the selected FLOE parameters"@,
            Error::InvalidHeaderTag => "invalid FLOE header tag"@,
            Error::InvalidCiphertextLength { actual, required } =>
                "invalid ciphertext segment length "@ + decimal(actual as nat) + "; required "@
                + required.text(),
            Error::InvalidSegmentPrefix => "non-final FLOE segment has an invalid prefix"@,
            Error::AuthenticationFailed => "FLOE segment authentication failed"@,
            Error::Closed => "FLOE online state is already closed"@,
            Error::Truncated => "FLOE input has no authenticated final segment"@,
            Error::SegmentLimit => "FLOE segment limit exceeded"@,
            Error::OutputTooSmall { actual, required } => "output buffer is "@ + decimal(
                actual as nat,
            ) + " bytes; "@ + decimal(required as nat) + " bytes are required"@,
            Error::InvalidBufferState => "segment buffer is not prepared for this operation"@,
            Error::ProviderSelectionRequired => "multiple FLOE providers are compiled ("@
                + provider_list(Provider::COMPILED@.len() as int)
                + ") and none was named; construct keys with Key::from_bytes_with_provider or Key::generate_with_provider"@,
            Error::LengthOverflow => "FLOE length calculation overflowed"@,
            Error::RngFailure => "random backend generation failed"@,
            Error::CryptoFailure => "cryptographic backend operation failed"@,
        }
    }

    /// Returns the message that describes this error.
    pub fn to_string(&self) -> (text: String)
        ensures
            text@ == self.text(),
    {
        let mut text = String::new();
        match *self {
            Error::InvalidKeyLength { actual } => {
                text.append("FLOE keys must be 32 bytes, got ");
                append_decimal(&mut text, actual as u64);
            },
            Error::InvalidParameters => text.append("FLOE parameter sets do not match"),
            Error::InvalidPlaintextLength { actual, required } => {
                text.append("invalid plaintext segment length ");
                append_decimal(&mut text, actual as u64);
                text.append("; required ");
                required.write_text(&mut text);
            },
            Error::InvalidHeaderLength { actual } => {
                text.append("FLOE headers must be ");
                append_decimal(&mut text, HEADER_LENGTH as u64);
                text.append(" bytes, got ");
                append_decimal(&mut text, actual as u64);
            },
            Error::InvalidHeaderParameters => {
                text.append("header parameters do not match the selected FLOE parameters");
            },
            Error::InvalidHeaderTag => text.append("invalid FLOE header tag"),
            Error::InvalidCiphertextLength { actual, required } => {
                text.append("invalid ciphertext segment length ");
                append_decimal(&mut text, actual as u64);
                text.append("; required ");
                required.write_text(&mut text);
            },
            Error::InvalidSegmentPrefix => {
                text.append("non-final FLOE segment has an invalid prefix");
            },
            Error::AuthenticationFailed => text.append("FLOE segment authentication failed"),
            Error::Closed => text.append("FLOE online state is already closed"),
            Error::Truncated => text.append("FLOE input has no authenticated final segment"),
            Error::SegmentLimit => text.append("FLOE segment limit exceeded"),
            Error::OutputTooSmall { actual, required } => {
                text.append("output buffer is ");
                append_decimal(&mut text, actual as u64);
                text.append(" bytes; ");
                append_decimal(&mut text, required as u64);
                text.append(" bytes are required");
            },
            Error::InvalidBufferState => {
                text.append("segment buffer is not prepared for this operation");
            },
            Error::ProviderSelectionRequired => {
                text.append("multiple FLOE providers are compiled (");
                append_provider_list(&mut text);
                text.append(
                    ") and none was named; construct keys with Key::from_bytes_with_provider or Key::generate_with_provider",
                );
            },
            Error::LengthOverflow => text.append("FLOE length calculation overflowed"),
            Error::RngFailure => text.append("random backend generation failed"),
            Error::CryptoFailure => text.append("cryptographic backend operation failed"),
        }
        assert(text@ =~= self.text());
        text
    }
}

/// Messages name their numbers in full, whatever they are: the length that was
/// given, and then the one that is required.
pub proof fn lemma_messages_name_numbers(actual: usize, least: usize, most: usize)
    ensures
        (Error::InvalidKeyLength { actual }).text() == "FLOE keys must be 32 bytes, got "@
            + decimal(actual as nat),
        (Error::InvalidHeaderLength { actual }).text() == "FLOE headers must be "@ + decimal(74)
            + " bytes, got "@ + decimal(actual as nat),
        (Error::OutputTooSmall { actual, required: least }).text() == "output buffer is "@
            + decimal(actual as nat) + " bytes; "@ + decimal(least as nat)
            + " bytes are required"@,
        (LengthRequirement::Exactly(least)).text() == "exactly "@ + decimal(least as nat),
        (LengthRequirement::AtLeast(least)).text() == "at least "@ + decimal(least as nat),
        (LengthRequirement::AtMost(most)).text() == "at most "@ + decimal(most as nat),
        (LengthRequirement::Between { minimum: least, maximum: most }).text() == "between "@
            + decimal(least as nat) + " and "@ + decimal(most as nat),
        forall|required: LengthRequirement|
            (#[trigger] (Error::InvalidPlaintextLength { actual, required }).text())
                == "invalid plaintext segment length "@ + decimal(actual as nat) + "; required "@
                + required.text(),
        forall|required: LengthRequirement|
            (#[trigger] (Error::InvalidCiphertextLength { actual, required }).text())
                == "invalid ciphertext segment length "@ + decimal(actual as nat) + "; required "@
                + required.text(),
{
}

fn digit_text(value: u64) -> (text: &'static str)
    requires
        value < 10,
    ensures
        text@ == seq![digit(value as int)],
{
    proof {
        reveal_strlit("0");
        reveal_strlit("1");
        reveal_strlit("2");
        reveal_strlit("3");
        reveal_strlit("4");
        reveal_strlit("5");
        reveal_strlit("6");
        reveal_strlit("7");
        reveal_strlit("8");
        reveal_strlit("9");
    }
    let text = match value {
        0 => "0",
        1 => "1",
        2 => "2",
        3 => "3",
        4 => "4",
        5 => "5",
        6 => "6",
        7 => "7",
        8 => "8",
        _ => "9",
    };
    assert(text@ =~= seq![digit(value as int)]);
    text
}

pub(crate) fn append_decimal(out: &mut String, value: u64)
    ensures
        final(out)@ == old(out)@ + decimal(value as nat),
    decreases value,
{
    if value >= 10 {
        append_decimal(out, value / 10);
    }
    out.append(digit_text(value % 10));
    assert(out@ =~= old(out)@ + decimal(value as nat));
}

fn append_provider_list(out: &mut String)
    ensures
        final(out)@ == old(out)@ + provider_list(Provider::COMPILED@.len() as int),
{
    let compiled = Provider::COMPILED;
    let mut index: usize = 0;
    assert(out@ =~= old(out)@ + provider_list(0));
    while index < compiled.as_slice().len()
        invariant
            compiled@ == Provider::COMPILED@,
            index <= compiled@.len(),
            out@ == old(out)@ + provider_list(index as int),
        decreases compiled@.len() - index,
    {
        if index != 0 {
            out.append(", ");
        }
        out.append(compiled[index].name());
        index += 1;
        assert(out@ =~= old(out)@ + provider_list(index as int));
    }
}

} // verus!
