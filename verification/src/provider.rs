use vstd::prelude::*;

verus! {

/// A compiled-in cryptographic backend: an AEAD, KDF, and RNG bundle.
///
/// This build always contains the three providers below, so there is no build
/// default: bind one explicitly to a [`crate::Key`] with
/// [`crate::Key::from_bytes_with_provider`] or
/// [`crate::Key::generate_with_provider`]. A key that is bound to none, as
/// [`crate::Key::from_bytes`] makes it, and [`crate::Key::generate`] answer
/// [`crate::Error::ProviderSelectionRequired`].
///
/// There is no `BoringSSL` provider: the `boring` crate builds its library from
/// source, which takes `cmake` and `libclang`.
#[derive(Clone, Copy, Debug, PartialEq, Eq, Structural)]
pub enum Provider {
    /// aws-lc-rs.
    AwsLcRs,
    /// ring.
    Ring,
    /// The `RustCrypto` crates.
    RustCrypto,
}

impl Provider {
    /// The aws-lc-rs provider.
    pub const AWS_LC_RS: Self = Self::AwsLcRs;

    /// The Ring provider.
    pub const RING: Self = Self::Ring;

    /// The `RustCrypto` provider.
    pub const RUSTCRYPTO: Self = Self::RustCrypto;

    /// Every provider compiled into this build.
    pub const COMPILED: [Self; 3] = [Self::AWS_LC_RS, Self::RING, Self::RUSTCRYPTO];

    /// The provider that an operation uses when none was named: the compiled
    /// one, where there is exactly one.
    pub open spec fn default_choice() -> Option<Provider> {
        if Self::COMPILED@.len() == 1 {
            Some(Self::COMPILED@[0])
        } else {
            None
        }
    }

    /// Returns the build's default provider when exactly one provider was compiled.
    ///
    /// Multi-provider builds deliberately have no default, and this is one: the
    /// result is `None`.
    pub fn build_default() -> (provider: Option<Self>)
        ensures
            provider == Self::default_choice(),
    {
        let compiled = Self::COMPILED;
        if compiled.as_slice().len() == 1 {
            Some(compiled[0])
        } else {
            None
        }
    }

    /// This provider's stable identifier.
    pub open spec fn text(self) -> Seq<char> {
        match self {
            Provider::AwsLcRs => "aws-lc-rs"@,
            Provider::Ring => "ring"@,
            Provider::RustCrypto => "rustcrypto"@,
        }
    }

    /// Returns this provider's stable identifier.
    pub fn name(self) -> (name: &'static str)
        ensures
            name@ == self.text(),
    {
        match self {
            Provider::AwsLcRs => "aws-lc-rs",
            Provider::Ring => "ring",
            Provider::RustCrypto => "rustcrypto",
        }
    }
}

} // verus!
