//! Scheme markers and scheme-tagged wrappers.
//!
//! Every key and ciphertext type can be wrapped together with a zero-sized
//! marker of the scheme family it belongs to, so that values of different
//! schemes cannot be mixed up: a function that takes `TypedMpk<Waters, _>`
//! refuses a `TypedMpk<Ac17, _>` at compile time. The markers add nothing
//! at run time.

use vstd::prelude::*;
use core::marker::PhantomData;
use core::ops::Deref;
use core::ops::DerefMut;
use vstd::std_specs::convert::FromSpecImpl;

mod private;

verus! {

/// A family of ABE schemes, identified by a short name. Sealed: only the
/// markers of this module implement it.
pub trait Scheme: private::Sealed + Clone + Copy + 'static {
    /// The identifier used in serialisation and diagnostics.
    const ID: &'static str;

    /// The characters of the identifier.
    spec fn id_text() -> Seq<char>;

    /// The identifier.
    fn id() -> (r: &'static str)
        ensures
            r@ == Self::id_text();

    /// The characters of the identifier are those of `ID`.
    proof fn lemma_id_text()
        ensures
            Self::id_text() == Self::ID@;
}

/// Marker of Waters '11 CP-ABE.
#[derive(Clone, Copy, Debug, Default, PartialEq, Eq)]
pub struct Waters;

impl private::Sealed for Waters {}

impl Scheme for Waters {
    const ID: &'static str = "waters";

    open spec fn id_text() -> Seq<char> {
        "waters"@
    }

    fn id() -> (r: &'static str) {
        "waters"
    }

    proof fn lemma_id_text() {
    }
}

/// Marker of CCA-secure Waters CP-ABE.
#[derive(Clone, Copy, Debug, Default, PartialEq, Eq)]
pub struct WatersCca;

impl private::Sealed for WatersCca {}

impl Scheme for WatersCca {
    const ID: &'static str = "waters-cca";

    open spec fn id_text() -> Seq<char> {
        "waters-cca"@
    }

    fn id() -> (r: &'static str) {
        "waters-cca"
    }

    proof fn lemma_id_text() {
    }
}

/// Marker of AC17 (Agrawal-Chase) CP-ABE.
#[derive(Clone, Copy, Debug, Default, PartialEq, Eq)]
pub struct Ac17;

impl private::Sealed for Ac17 {}

impl Scheme for Ac17 {
    const ID: &'static str = "ac17";

    open spec fn id_text() -> Seq<char> {
        "ac17"@
    }

    fn id() -> (r: &'static str) {
        "ac17"
    }

    proof fn lemma_id_text() {
    }
}

/// Marker of GPSW KP-ABE.
#[derive(Clone, Copy, Debug, Default, PartialEq, Eq)]
pub struct Gpsw;

impl private::Sealed for Gpsw {}

impl Scheme for Gpsw {
    const ID: &'static str = "gpsw";

    open spec fn id_text() -> Seq<char> {
        "gpsw"@
    }

    fn id() -> (r: &'static str) {
        "gpsw"
    }

    proof fn lemma_id_text() {
    }
}

/// Marker of BSW CP-ABE.
#[derive(Clone, Copy, Debug, Default, PartialEq, Eq)]
pub struct Bsw;

impl private::Sealed for Bsw {}

impl Scheme for Bsw {
    const ID: &'static str = "bsw";

    open spec fn id_text() -> Seq<char> {
        "bsw"@
    }

    fn id() -> (r: &'static str) {
        "bsw"
    }

    proof fn lemma_id_text() {
    }
}

/// Marker of Decentralized multi-authority ABE.
#[derive(Clone, Copy, Debug, Default, PartialEq, Eq)]
pub struct Dabe;

impl private::Sealed for Dabe {}

impl Scheme for Dabe {
    const ID: &'static str = "dabe";

    open spec fn id_text() -> Seq<char> {
        "dabe"@
    }

    fn id() -> (r: &'static str) {
        "dabe"
    }

    proof fn lemma_id_text() {
    }
}

/// Master public key tagged with its scheme.
#[derive(Debug)]
pub struct TypedMpk<S: Scheme, T> {
    inner: T,
    _marker: PhantomData<S>,
}

impl<S: Scheme, T> TypedMpk<S, T> {
    /// The wrapped value.
    pub closed spec fn value(self) -> T {
        self.inner
    }

    /// Wraps a raw value.
    pub fn new(inner: T) -> (r: Self)
        ensures
            r.value() == inner,
    {
        TypedMpk { inner, _marker: PhantomData }
    }

    /// The scheme's identifier.
    pub fn scheme_id(&self) -> (r: &'static str)
        ensures
            r@ == S::id_text(),
    {
        S::id()
    }

    /// Gives back the wrapped value.
    pub fn into_inner(self) -> (r: T)
        ensures
            r == self.value(),
    {
        self.inner
    }

    /// The wrapped value, by reference.
    pub fn inner(&self) -> (r: &T)
        ensures
            *r == self.value(),
    {
        &self.inner
    }

    /// The wrapped value, by mutable reference: what is written through it
    /// is what the wrapper holds afterwards.
    pub fn inner_mut(&mut self) -> (r: &mut T)
        ensures
            *r == old(self).value(),
            final(self).value() == *final(r),
    {
        &mut self.inner
    }
}

impl<S: Scheme, T: Clone> Clone for TypedMpk<S, T> {
    fn clone(&self) -> (r: Self)
        ensures
            cloned::<T>(self.value(), r.value()),
    {
        TypedMpk { inner: self.inner.clone(), _marker: PhantomData }
    }
}

impl<S: Scheme, T> Deref for TypedMpk<S, T> {
    type Target = T;

    fn deref(&self) -> (r: &T)
        ensures
            *r == self.value(),
    {
        &self.inner
    }
}

impl<S: Scheme, T> DerefMut for TypedMpk<S, T> {
    fn deref_mut(&mut self) -> (r: &mut T)
        ensures
            *r == old(self).value(),
            final(self).value() == *final(r),
    {
        &mut self.inner
    }
}

impl<S: Scheme, T> From<T> for TypedMpk<S, T> {
    fn from(inner: T) -> (r: Self)
        ensures
            r.value() == inner,
    {
        Self::new(inner)
    }
}

impl<S: Scheme, T> FromSpecImpl<T> for TypedMpk<S, T> {
    open spec fn obeys_from_spec() -> bool {
        true
    }

    closed spec fn from_spec(v: T) -> Self {
        TypedMpk { inner: v, _marker: PhantomData }
    }
}

/// Master secret key tagged with its scheme.
pub struct TypedMsk<S: Scheme, T> {
    inner: T,
    _marker: PhantomData<S>,
}

impl<S: Scheme, T> TypedMsk<S, T> {
    /// The wrapped value.
    pub closed spec fn value(self) -> T {
        self.inner
    }

    /// Wraps a raw value.
    pub fn new(inner: T) -> (r: Self)
        ensures
            r.value() == inner,
    {
        TypedMsk { inner, _marker: PhantomData }
    }

    /// The scheme's identifier.
    pub fn scheme_id(&self) -> (r: &'static str)
        ensures
            r@ == S::id_text(),
    {
        S::id()
    }

    /// Gives back the wrapped value.
    pub fn into_inner(self) -> (r: T)
        ensures
            r == self.value(),
    {
        self.inner
    }

    /// The wrapped value, by reference.
    pub fn inner(&self) -> (r: &T)
        ensures
            *r == self.value(),
    {
        &self.inner
    }

    /// The wrapped value, by mutable reference: what is written through it
    /// is what the wrapper holds afterwards.
    pub fn inner_mut(&mut self) -> (r: &mut T)
        ensures
            *r == old(self).value(),
            final(self).value() == *final(r),
    {
        &mut self.inner
    }
}

impl<S: Scheme, T: Clone> Clone for TypedMsk<S, T> {
    fn clone(&self) -> (r: Self)
        ensures
            cloned::<T>(self.value(), r.value()),
    {
        TypedMsk { inner: self.inner.clone(), _marker: PhantomData }
    }
}

impl<S: Scheme, T> Deref for TypedMsk<S, T> {
    type Target = T;

    fn deref(&self) -> (r: &T)
        ensures
            *r == self.value(),
    {
        &self.inner
    }
}

impl<S: Scheme, T> DerefMut for TypedMsk<S, T> {
    fn deref_mut(&mut self) -> (r: &mut T)
        ensures
            *r == old(self).value(),
            final(self).value() == *final(r),
    {
        &mut self.inner
    }
}

impl<S: Scheme, T> From<T> for TypedMsk<S, T> {
    fn from(inner: T) -> (r: Self)
        ensures
            r.value() == inner,
    {
        Self::new(inner)
    }
}

impl<S: Scheme, T> FromSpecImpl<T> for TypedMsk<S, T> {
    open spec fn obeys_from_spec() -> bool {
        true
    }

    closed spec fn from_spec(v: T) -> Self {
        TypedMsk { inner: v, _marker: PhantomData }
    }
}

impl<S: Scheme, T> TypedMsk<S, T> {
    /// What `{:?}` shows of the wrapper: the scheme, never the secret.
    pub fn debug_string(&self) -> (r: String)
        ensures
            r@ == "TypedMsk { scheme: \""@ + S::id_text() + "\", inner: \"<redacted>\" }"@,
    {
        let mut r = String::from_str("TypedMsk { scheme: \"");
        r.append(S::id());
        r.append("\", inner: \"<redacted>\" }");
        r
    }
}

/// User secret key tagged with its scheme.
pub struct TypedSecretKey<S: Scheme, T> {
    inner: T,
    _marker: PhantomData<S>,
}

impl<S: Scheme, T> TypedSecretKey<S, T> {
    /// The wrapped value.
    pub closed spec fn value(self) -> T {
        self.inner
    }

    /// Wraps a raw value.
    pub fn new(inner: T) -> (r: Self)
        ensures
            r.value() == inner,
    {
        TypedSecretKey { inner, _marker: PhantomData }
    }

    /// The scheme's identifier.
    pub fn scheme_id(&self) -> (r: &'static str)
        ensures
            r@ == S::id_text(),
    {
        S::id()
    }

    /// Gives back the wrapped value.
    pub fn into_inner(self) -> (r: T)
        ensures
            r == self.value(),
    {
        self.inner
    }

    /// The wrapped value, by reference.
    pub fn inner(&self) -> (r: &T)
        ensures
            *r == self.value(),
    {
        &self.inner
    }

    /// The wrapped value, by mutable reference: what is written through it
    /// is what the wrapper holds afterwards.
    pub fn inner_mut(&mut self) -> (r: &mut T)
        ensures
            *r == old(self).value(),
            final(self).value() == *final(r),
    {
        &mut self.inner
    }
}

impl<S: Scheme, T: Clone> Clone for TypedSecretKey<S, T> {
    fn clone(&self) -> (r: Self)
        ensures
            cloned::<T>(self.value(), r.value()),
    {
        TypedSecretKey { inner: self.inner.clone(), _marker: PhantomData }
    }
}

impl<S: Scheme, T> Deref for TypedSecretKey<S, T> {
    type Target = T;

    fn deref(&self) -> (r: &T)
        ensures
            *r == self.value(),
    {
        &self.inner
    }
}

impl<S: Scheme, T> DerefMut for TypedSecretKey<S, T> {
    fn deref_mut(&mut self) -> (r: &mut T)
        ensures
            *r == old(self).value(),
            final(self).value() == *final(r),
    {
        &mut self.inner
    }
}

impl<S: Scheme, T> From<T> for TypedSecretKey<S, T> {
    fn from(inner: T) -> (r: Self)
        ensures
            r.value() == inner,
    {
        Self::new(inner)
    }
}

impl<S: Scheme, T> FromSpecImpl<T> for TypedSecretKey<S, T> {
    open spec fn obeys_from_spec() -> bool {
        true
    }

    closed spec fn from_spec(v: T) -> Self {
        TypedSecretKey { inner: v, _marker: PhantomData }
    }
}

impl<S: Scheme, T> TypedSecretKey<S, T> {
    /// What `{:?}` shows of the wrapper: the scheme, never the secret.
    pub fn debug_string(&self) -> (r: String)
        ensures
            r@ == "TypedSecretKey { scheme: \""@ + S::id_text() + "\", inner: \"<redacted>\" }"@,
    {
        let mut r = String::from_str("TypedSecretKey { scheme: \"");
        r.append(S::id());
        r.append("\", inner: \"<redacted>\" }");
        r
    }
}

/// Ciphertext tagged with its scheme.
#[derive(Debug)]
pub struct TypedCiphertext<S: Scheme, T> {
    inner: T,
    _marker: PhantomData<S>,
}

impl<S: Scheme, T> TypedCiphertext<S, T> {
    /// The wrapped value.
    pub closed spec fn value(self) -> T {
        self.inner
    }

    /// Wraps a raw value.
    pub fn new(inner: T) -> (r: Self)
        ensures
            r.value() == inner,
    {
        TypedCiphertext { inner, _marker: PhantomData }
    }

    /// The scheme's identifier.
    pub fn scheme_id(&self) -> (r: &'static str)
        ensures
            r@ == S::id_text(),
    {
        S::id()
    }

    /// Gives back the wrapped value.
    pub fn into_inner(self) -> (r: T)
        ensures
            r == self.value(),
    {
        self.inner
    }

    /// The wrapped value, by reference.
    pub fn inner(&self) -> (r: &T)
        ensures
            *r == self.value(),
    {
        &self.inner
    }

    /// The wrapped value, by mutable reference: what is written through it
    /// is what the wrapper holds afterwards.
    pub fn inner_mut(&mut self) -> (r: &mut T)
        ensures
            *r == old(self).value(),
            final(self).value() == *final(r),
    {
        &mut self.inner
    }
}

impl<S: Scheme, T: Clone> Clone for TypedCiphertext<S, T> {
    fn clone(&self) -> (r: Self)
        ensures
            cloned::<T>(self.value(), r.value()),
    {
        TypedCiphertext { inner: self.inner.clone(), _marker: PhantomData }
    }
}

impl<S: Scheme, T> Deref for TypedCiphertext<S, T> {
    type Target = T;

    fn deref(&self) -> (r: &T)
        ensures
            *r == self.value(),
    {
        &self.inner
    }
}

impl<S: Scheme, T> DerefMut for TypedCiphertext<S, T> {
    fn deref_mut(&mut self) -> (r: &mut T)
        ensures
            *r == old(self).value(),
            final(self).value() == *final(r),
    {
        &mut self.inner
    }
}

impl<S: Scheme, T> From<T> for TypedCiphertext<S, T> {
    fn from(inner: T) -> (r: Self)
        ensures
            r.value() == inner,
    {
        Self::new(inner)
    }
}

impl<S: Scheme, T> FromSpecImpl<T> for TypedCiphertext<S, T> {
    open spec fn obeys_from_spec() -> bool {
        true
    }

    closed spec fn from_spec(v: T) -> Self {
        TypedCiphertext { inner: v, _marker: PhantomData }
    }
}

/// Ciphertext with its symmetric payload, tagged with its scheme.
#[derive(Debug)]
pub struct TypedFullCiphertext<S: Scheme, T> {
    inner: T,
    _marker: PhantomData<S>,
}

impl<S: Scheme, T> TypedFullCiphertext<S, T> {
    /// The wrapped value.
    pub closed spec fn value(self) -> T {
        self.inner
    }

    /// Wraps a raw value.
    pub fn new(inner: T) -> (r: Self)
        ensures
            r.value() == inner,
    {
        TypedFullCiphertext { inner, _marker: PhantomData }
    }

    /// The scheme's identifier.
    pub fn scheme_id(&self) -> (r: &'static str)
        ensures
            r@ == S::id_text(),
    {
        S::id()
    }

    /// Gives back the wrapped value.
    pub fn into_inner(self) -> (r: T)
        ensures
            r == self.value(),
    {
        self.inner
    }

    /// The wrapped value, by reference.
    pub fn inner(&self) -> (r: &T)
        ensures
            *r == self.value(),
    {
        &self.inner
    }

    /// The wrapped value, by mutable reference: what is written through it
    /// is what the wrapper holds afterwards.
    pub fn inner_mut(&mut self) -> (r: &mut T)
        ensures
            *r == old(self).value(),
            final(self).value() == *final(r),
    {
        &mut self.inner
    }
}

impl<S: Scheme, T: Clone> Clone for TypedFullCiphertext<S, T> {
    fn clone(&self) -> (r: Self)
        ensures
            cloned::<T>(self.value(), r.value()),
    {
        TypedFullCiphertext { inner: self.inner.clone(), _marker: PhantomData }
    }
}

impl<S: Scheme, T> Deref for TypedFullCiphertext<S, T> {
    type Target = T;

    fn deref(&self) -> (r: &T)
        ensures
            *r == self.value(),
    {
        &self.inner
    }
}

impl<S: Scheme, T> DerefMut for TypedFullCiphertext<S, T> {
    fn deref_mut(&mut self) -> (r: &mut T)
        ensures
            *r == old(self).value(),
            final(self).value() == *final(r),
    {
        &mut self.inner
    }
}

impl<S: Scheme, T> From<T> for TypedFullCiphertext<S, T> {
    fn from(inner: T) -> (r: Self)
        ensures
            r.value() == inner,
    {
        Self::new(inner)
    }
}

impl<S: Scheme, T> FromSpecImpl<T> for TypedFullCiphertext<S, T> {
    open spec fn obeys_from_spec() -> bool {
        true
    }

    closed spec fn from_spec(v: T) -> Self {
        TypedFullCiphertext { inner: v, _marker: PhantomData }
    }
}

/// Re-encrypted ciphertext tagged with its scheme.
#[derive(Debug)]
pub struct TypedReEncryptedCiphertext<S: Scheme, T> {
    inner: T,
    _marker: PhantomData<S>,
}

impl<S: Scheme, T> TypedReEncryptedCiphertext<S, T> {
    /// The wrapped value.
    pub closed spec fn value(self) -> T {
        self.inner
    }

    /// Wraps a raw value.
    pub fn new(inner: T) -> (r: Self)
        ensures
            r.value() == inner,
    {
        TypedReEncryptedCiphertext { inner, _marker: PhantomData }
    }

    /// The scheme's identifier.
    pub fn scheme_id(&self) -> (r: &'static str)
        ensures
            r@ == S::id_text(),
    {
        S::id()
    }

    /// Gives back the wrapped value.
    pub fn into_inner(self) -> (r: T)
        ensures
            r == self.value(),
    {
        self.inner
    }

    /// The wrapped value, by reference.
    pub fn inner(&self) -> (r: &T)
        ensures
            *r == self.value(),
    {
        &self.inner
    }

    /// The wrapped value, by mutable reference: what is written through it
    /// is what the wrapper holds afterwards.
    pub fn inner_mut(&mut self) -> (r: &mut T)
        ensures
            *r == old(self).value(),
            final(self).value() == *final(r),
    {
        &mut self.inner
    }
}

impl<S: Scheme, T: Clone> Clone for TypedReEncryptedCiphertext<S, T> {
    fn clone(&self) -> (r: Self)
        ensures
            cloned::<T>(self.value(), r.value()),
    {
        TypedReEncryptedCiphertext { inner: self.inner.clone(), _marker: PhantomData }
    }
}

impl<S: Scheme, T> Deref for TypedReEncryptedCiphertext<S, T> {
    type Target = T;

    fn deref(&self) -> (r: &T)
        ensures
            *r == self.value(),
    {
        &self.inner
    }
}

impl<S: Scheme, T> DerefMut for TypedReEncryptedCiphertext<S, T> {
    fn deref_mut(&mut self) -> (r: &mut T)
        ensures
            *r == old(self).value(),
            final(self).value() == *final(r),
    {
        &mut self.inner
    }
}

impl<S: Scheme, T> From<T> for TypedReEncryptedCiphertext<S, T> {
    fn from(inner: T) -> (r: Self)
        ensures
            r.value() == inner,
    {
        Self::new(inner)
    }
}

impl<S: Scheme, T> FromSpecImpl<T> for TypedReEncryptedCiphertext<S, T> {
    open spec fn obeys_from_spec() -> bool {
        true
    }

    closed spec fn from_spec(v: T) -> Self {
        TypedReEncryptedCiphertext { inner: v, _marker: PhantomData }
    }
}

/// Re-encryption key tagged with the schemes it converts from and to.
pub struct TypedReKey<Source: Scheme, Target: Scheme, T> {
    inner: T,
    _source: PhantomData<Source>,
    _target: PhantomData<Target>,
}

impl<Source: Scheme, Target: Scheme, T> TypedReKey<Source, Target, T> {
    /// The wrapped value.
    pub closed spec fn value(self) -> T {
        self.inner
    }

    /// Wraps a raw value.
    pub fn new(inner: T) -> (r: Self)
        ensures
            r.value() == inner,
    {
        TypedReKey { inner, _source: PhantomData, _target: PhantomData }
    }

    /// The source scheme's identifier.
    pub fn source_scheme_id(&self) -> (r: &'static str)
        ensures
            r@ == Source::id_text(),
    {
        Source::id()
    }

    /// The target scheme's identifier.
    pub fn target_scheme_id(&self) -> (r: &'static str)
        ensures
            r@ == Target::id_text(),
    {
        Target::id()
    }

    /// Gives back the wrapped value.
    pub fn into_inner(self) -> (r: T)
        ensures
            r == self.value(),
    {
        self.inner
    }

    /// The wrapped value, by reference.
    pub fn inner(&self) -> (r: &T)
        ensures
            *r == self.value(),
    {
        &self.inner
    }

    /// The wrapped value, by mutable reference: what is written through it
    /// is what the wrapper holds afterwards.
    pub fn inner_mut(&mut self) -> (r: &mut T)
        ensures
            *r == old(self).value(),
            final(self).value() == *final(r),
    {
        &mut self.inner
    }
}

impl<Source: Scheme, Target: Scheme, T: Clone> Clone for TypedReKey<Source, Target, T> {
    fn clone(&self) -> (r: Self)
        ensures
            cloned::<T>(self.value(), r.value()),
    {
        TypedReKey { inner: self.inner.clone(), _source: PhantomData, _target: PhantomData }
    }
}

impl<Source: Scheme, Target: Scheme, T> Deref for TypedReKey<Source, Target, T> {
    type Target = T;

    fn deref(&self) -> (r: &T)
        ensures
            *r == self.value(),
    {
        &self.inner
    }
}

impl<Source: Scheme, Target: Scheme, T> DerefMut for TypedReKey<Source, Target, T> {
    fn deref_mut(&mut self) -> (r: &mut T)
        ensures
            *r == old(self).value(),
            final(self).value() == *final(r),
    {
        &mut self.inner
    }
}

impl<Source: Scheme, Target: Scheme, T> From<T> for TypedReKey<Source, Target, T> {
    fn from(inner: T) -> (r: Self)
        ensures
            r.value() == inner,
    {
        Self::new(inner)
    }
}

impl<Source: Scheme, Target: Scheme, T> FromSpecImpl<T> for TypedReKey<Source, Target, T> {
    open spec fn obeys_from_spec() -> bool {
        true
    }

    closed spec fn from_spec(v: T) -> Self {
        TypedReKey { inner: v, _source: PhantomData, _target: PhantomData }
    }
}

impl<Source: Scheme, Target: Scheme, T> TypedReKey<Source, Target, T> {
    /// What `{:?}` shows of the key: both schemes, never the secret.
    pub fn debug_string(&self) -> (r: String)
        ensures
            r@ == "TypedReKey { source_scheme: \""@ + Source::id_text() + "\", target_scheme: \""@
                + Target::id_text() + "\", inner: \"<redacted>\" }"@,
    {
        let mut r = String::from_str("TypedReKey { source_scheme: \"");
        r.append(Source::id());
        r.append("\", target_scheme: \"");
        r.append(Target::id());
        r.append("\", inner: \"<redacted>\" }");
        r
    }
}

} // verus!
