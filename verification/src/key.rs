use vstd::prelude::*;
use vstd::string::StringExecFns;
use zeroize::Zeroizing;

verus! {

/// A 32-byte buffer held in `zeroize::Zeroizing`, so that it is wiped when
/// dropped.
#[verifier::external_body]
pub struct ZeroizingKey {
    pub(crate) inner: Zeroizing<[u8; 32]>,
}

/// The 32 bytes held in a [`ZeroizingKey`].
pub uninterp spec fn zeroizing_key_bytes(z: ZeroizingKey) -> Seq<u8>;

/// Wraps `zeroize::Zeroizing::new`: moves the array into a buffer that is
/// wiped on drop; the buffer then holds exactly the given bytes.
#[verifier::external_body]
fn zeroizing_new(value: [u8; 32]) -> (res: ZeroizingKey)
    ensures
        zeroizing_key_bytes(res) == value@,
{
    ZeroizingKey { inner: Zeroizing::new(value) }
}

/// Wraps `Deref::deref` of `zeroize::Zeroizing`: borrows the held array.
#[verifier::external_body]
pub(crate) fn zeroizing_deref(z: &ZeroizingKey) -> (res: &[u8; 32])
    ensures
        res@ == zeroizing_key_bytes(*z),
{
    &z.inner
}

/// Wrapper for a 32-byte AES-256-GCM key that zeroizes on drop.
pub struct Aes256GcmKey(ZeroizingKey);

impl Aes256GcmKey {
    /// A key always holds 32 bytes.
    #[verifier::type_invariant]
    spec fn holds_32_bytes(self) -> bool {
        zeroizing_key_bytes(self.0).len() == 32
    }

    /// The bytes of the key.
    pub closed spec fn view(&self) -> Seq<u8> {
        zeroizing_key_bytes(self.0)
    }

    /// A key holding the given bytes.
    pub fn from_bytes(bytes: [u8; 32]) -> (res: Self)
        ensures
            res.view() == bytes@,
    {
        Aes256GcmKey(zeroizing_new(bytes))
    }

    /// The text that debugging output shows for a key: the key bytes are
    /// never shown.
    pub fn debug_text(&self) -> (res: String)
        ensures
            res@ == "Aes256GcmKey(REDACTED)"@,
    {
        String::from_str("Aes256GcmKey(REDACTED)")
    }

    /// The key holds 32 bytes.
    pub fn lemma_len(&self)
        ensures
            self.view().len() == 32,
    {
        proof {
            use_type_invariant(self);
        }
    }
}

/// Borrow raw key bytes (no copies).
pub fn key_bytes(key: &Aes256GcmKey) -> (res: &[u8; 32])
    ensures
        res@ == key.view(),
{
    zeroizing_deref(&key.0)
}

} // verus!
