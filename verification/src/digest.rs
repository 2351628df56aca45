//! A running SHA-256 digest, and its rendering in hexadecimal.

use vstd::prelude::*;
use vstd::string::StringSliceAdditionalSpecFns;

verus! {

/// A SHA-256 hasher of the crate `sha2`, in the middle of its work. The
/// hasher's own type is built from type-level numbers that Verus
/// does not take, so it is held here, out of its sight; what it has
/// processed is known through [`absorbed`] only.
#[verifier::external_body]
pub struct Hasher {
    inner: sha2::Sha256,
}

/// The bytes that a hasher has processed, in the order in which it got them.
pub uninterp spec fn absorbed(hasher: Hasher) -> Seq<u8>;

/// The SHA-256 digest of a sequence of bytes.
pub uninterp spec fn sha256(data: Seq<u8>) -> Seq<u8>;

/// `sha2::Digest::new` for `Sha256` creates a hasher that has processed
/// nothing.
#[verifier::external_body]
fn hasher_new() -> (hasher: Hasher)
    ensures
        absorbed(hasher) == Seq::<u8>::empty(),
{
    Hasher { inner: <sha2::Sha256 as sha2::Digest>::new() }
}

/// `sha2::Digest::update` makes the hasher process `data` behind what it
/// has processed before.
#[verifier::external_body]
fn hasher_update(hasher: &mut Hasher, data: &[u8])
    ensures
        absorbed(*final(hasher)) == absorbed(*old(hasher)) + data@,
{
    sha2::Digest::update(&mut hasher.inner, data)
}

/// `sha2::Digest::finalize` gives the SHA-256 digest of all that the hasher
/// has processed.
#[verifier::external_body]
fn hasher_finalize(hasher: Hasher) -> (out: Vec<u8>)
    ensures
        out@ == sha256(absorbed(hasher)),
{
    sha2::Digest::finalize(hasher.inner).to_vec()
}

/// The lower-case hexadecimal digit for `d`.
pub open spec fn hex_digit(d: u8) -> char
    recommends
        d < 16,
{
    if d < 10 {
        ('0' as u8 + d) as char
    } else {
        ('a' as u8 + (d - 10) as u8) as char
    }
}

/// `data` in hexadecimal: two lower-case digits for each byte, the high
/// half first.
pub open spec fn lower_hex(data: Seq<u8>) -> Seq<char>
    decreases data.len(),
{
    if data.len() == 0 {
        Seq::empty()
    } else {
        lower_hex(data.drop_last()).push(hex_digit(data.last() / 16)).push(
            hex_digit(data.last() % 16),
        )
    }
}

/// `hex::encode` writes each byte as two lower-case hexadecimal digits.
#[verifier::external_body]
fn hex_encode(data: &Vec<u8>) -> (out: String)
    ensures
        out@ == lower_hex(data@),
{
    hex::encode(data)
}

/// A digest in the making: what was fed into it so far is what its result
/// will be the digest of.
pub struct Digest {
    hasher: Hasher,
}

impl View for Digest {
    type V = Seq<u8>;

    /// The bytes fed so far.
    closed spec fn view(&self) -> Seq<u8> {
        absorbed(self.hasher)
    }
}

impl Digest {
    /// A digest that was fed nothing.
    pub fn new() -> (out: Self)
        ensures
            out@ == Seq::<u8>::empty(),
    {
        Digest { hasher: hasher_new() }
    }

    /// Feeds `data` into the digest.
    pub fn update(&mut self, data: &[u8])
        ensures
            final(self)@ == old(self)@ + data@,
    {
        hasher_update(&mut self.hasher, data);
    }

    /// Feeds the UTF-8 bytes of `text` into the digest.
    pub fn update_str(&mut self, text: &str)
        ensures
            final(self)@ == old(self)@ + text.spec_bytes(),
    {
        hasher_update(&mut self.hasher, text.as_bytes());
    }

    /// The SHA-256 digest of what was fed, in hexadecimal.
    pub fn encode(self) -> (out: String)
        ensures
            out@ == lower_hex(sha256(self@)),
    {
        let bytes = hasher_finalize(self.hasher);
        hex_encode(&bytes)
    }
}

/// The bytes of `files`, one file behind the other.
pub open spec fn contents(files: Seq<Vec<u8>>) -> Seq<u8>
    decreases files.len(),
{
    if files.len() == 0 {
        Seq::empty()
    } else {
        contents(files.drop_last()) + files.last()@
    }
}

/// Feeds the contents of `files`, in order, into a new digest.
pub fn digest_files(files: &Vec<Vec<u8>>) -> (out: Digest)
    ensures
        out@ == contents(files@),
{
    let mut digest = Digest::new();
    let mut i: usize = 0;
    while i < files.len()
        invariant
            i <= files.len(),
            digest@ == contents(files@.take(i as int)),
        decreases files.len() - i,
    {
        assert(files@.take(i + 1).drop_last() == files@.take(i as int));
        digest.update(files[i].as_slice());
        i += 1;
    }
    assert(files@.take(files@.len() as int) == files@);
    digest
}

} // verus!
