//! Keys on the secp256k1 curve.

use vstd::prelude::*;

use crate::error::KeyError;
use crate::numeral::{as_digits, value};

verus! {

/// The size of a secret key in bytes.
pub const SECRET_KEY_SIZE: usize = 32;

/// The order of the group that the generator of the curve spans.
pub open spec fn curve_order() -> nat {
    0xfffffffffffffffffffffffffffffffebaaedce6af48a03bbfd25e8cd0364141nat
}

/// A secret key is a number from 1 up to, not including, the curve order, written with 32 bytes
/// and the most significant first.
pub open spec fn valid_secret(bytes: Seq<u8>) -> bool {
    &&& bytes.len() == SECRET_KEY_SIZE
    &&& 0 < value(as_digits(bytes), 256) < curve_order()
}

/// The prime whose residues the coordinates of points are.
pub open spec fn field_prime() -> nat {
    0xfffffffffffffffffffffffffffffffffffffffffffffffffffffffefffffc2fnat
}

/// A point of the curve, which is given by `y * y = x * x * x + 7`: `4`, the x coordinate, then the
/// y coordinate, each with 32 bytes and the most significant first.
pub open spec fn valid_point(point: Seq<u8>) -> bool {
    let x = value(as_digits(point.subrange(1, 33)), 256);
    let y = value(as_digits(point.subrange(33, 65)), 256);
    &&& point.len() == 65
    &&& point[0] == 4
    &&& x < field_prime()
    &&& y < field_prime()
    &&& (y * y) % field_prime() == (x * x * x + 7) % field_prime()
}

/// The point that belongs to a secret key: `4`, the x coordinate, then the y coordinate, each with
/// 32 bytes and the most significant first.
pub uninterp spec fn public_point(secret: Seq<u8>) -> [u8; 65];

/// The short form of a point: `3` if y is odd and `2` if it is even, then the x coordinate.
pub open spec fn compressed_form(point: Seq<u8>) -> Seq<u8> {
    seq![
        if point[64] % 2 == 1 {
            3u8
        } else {
            2u8
        },
    ] + point.subrange(1, 33)
}

/// A secret key.
#[derive(Clone, Copy, PartialEq, Eq)]
pub struct SecretKey {
    bytes: [u8; 32],
}

impl View for SecretKey {
    type V = Seq<u8>;

    closed spec fn view(&self) -> Seq<u8> {
        self.bytes@
    }
}

/// A public key, in the two forms in which it is written down.
#[derive(Clone, Copy, PartialEq, Eq)]
pub struct PublicKey {
    compressed: [u8; 33],
    uncompressed: [u8; 65],
}

impl View for PublicKey {
    type V = Seq<u8>;

    /// The uncompressed form.
    closed spec fn view(&self) -> Seq<u8> {
        self.uncompressed@
    }
}

/// `secp256k1::SecretKey::from_slice` takes exactly the byte strings that write a number from 1 up
/// to the curve order with 32 bytes, and `secret_bytes` gives the same bytes back.
#[verifier::external_body]
fn parse_secret(data: &[u8]) -> (parsed: Result<[u8; 32], secp256k1::Error>)
    ensures
        parsed is Ok <==> valid_secret(data@),
        parsed matches Ok(bytes) ==> bytes@ == data@,
{
    let secret = secp256k1::SecretKey::from_slice(data)?;
    Ok(secret.secret_bytes())
}

/// An error of the `secp256k1` crate.
#[verifier::external_type_specification]
#[verifier::external_body]
pub struct ExSecp256k1Error(secp256k1::Error);

/// `secp256k1::PublicKey::from_secret_key` is a function of the secret key; the point, one of
/// the curve, is named, not described. `serialize` and `serialize_uncompressed` write it in the two
/// forms that SEC 1 gives. `Secp256k1::new` blinds its tables with a random number, which has no
/// effect on the point, and panics where the operating system has none to give.
#[verifier::external_body]
fn derive_point(secret: &[u8; 32]) -> (forms: ([u8; 33], [u8; 65]))
    requires
        valid_secret(secret@),
    ensures
        forms.1 == public_point(secret@),
        valid_point(forms.1@),
        forms.0@ == compressed_form(forms.1@),
{
    let secret = secp256k1::SecretKey::from_slice(secret).unwrap();
    let public = secp256k1::PublicKey::from_secret_key(&secp256k1::Secp256k1::new(), &secret);
    (public.serialize(), public.serialize_uncompressed())
}

/// `secp256k1::Secp256k1::generate_keypair` draws a secret key from the operating system's
/// generator and derives its public key. Which key it is rests on chance. `None` stands for a
/// generator that `OsRng::new` could not open; one that fails later, while it is read or
/// while `Secp256k1::new` blinds its tables, panics.
#[verifier::external_body]
fn draw_pair() -> (pair: Option<([u8; 32], ([u8; 33], [u8; 65]))>)
    ensures
        pair matches Some((secret, forms)) ==> {
            &&& valid_secret(secret@)
            &&& forms.1 == public_point(secret@)
            &&& valid_point(forms.1@)
            &&& forms.0@ == compressed_form(forms.1@)
        },
{
    let mut rng = secp256k1::rand::rngs::OsRng::new().ok()?;
    let (secret, public) = secp256k1::Secp256k1::new().generate_keypair(&mut rng);
    Some((secret.secret_bytes(), (public.serialize(), public.serialize_uncompressed())))
}

/// What formatted text is written to.
#[verifier::external_type_specification]
#[verifier::external_body]
pub struct ExFormatter<'a>(core::fmt::Formatter<'a>);

/// The error of formatted text that could not be written.
#[verifier::external_type_specification]
#[verifier::external_body]
pub struct ExFormatError(core::fmt::Error);

/// `Debug` of a `secp256k1::SecretKey`, which `from_slice` reads from bytes in range. It shows a
/// hash in place of the secret. Nothing is stated of the text, which goes to the formatter.
#[verifier::external_body]
fn show_secret(bytes: &[u8; 32], f: &mut core::fmt::Formatter<'_>) -> (shown: Result<
    (),
    core::fmt::Error,
>)
    requires
        valid_secret(bytes@),
{
    core::fmt::Debug::fmt(&secp256k1::SecretKey::from_slice(bytes).unwrap(), f)
}

/// `Debug` of a `secp256k1::PublicKey`, which `from_slice` reads from a point of the curve. Nothing
/// is stated of the text, which goes to the formatter.
#[verifier::external_body]
fn show_point(point: &[u8; 65], f: &mut core::fmt::Formatter<'_>) -> (shown: Result<
    (),
    core::fmt::Error,
>)
    requires
        valid_point(point@),
{
    core::fmt::Debug::fmt(&secp256k1::PublicKey::from_slice(point).unwrap(), f)
}

impl core::fmt::Debug for SecretKey {
    /// Shows a hash of the secret key, not the secret key itself.
    fn fmt(&self, f: &mut core::fmt::Formatter<'_>) -> (shown: Result<(), core::fmt::Error>) {
        proof {
            use_type_invariant(self);
        }
        show_secret(&self.bytes, f)
    }
}

impl core::fmt::Debug for PublicKey {
    /// Shows the point.
    fn fmt(&self, f: &mut core::fmt::Formatter<'_>) -> (shown: Result<(), core::fmt::Error>) {
        proof {
            use_type_invariant(self);
        }
        show_point(&self.uncompressed, f)
    }
}

impl SecretKey {
    /// Every secret key is in range.
    #[verifier::type_invariant]
    spec fn in_range(self) -> bool {
        valid_secret(self.bytes@)
    }

    /// Reads a secret key.
    pub fn from_slice(data: &[u8]) -> (parsed: Result<SecretKey, KeyError>)
        ensures
            match parsed {
                Ok(secret) => valid_secret(data@) && secret@ == data@,
                Err(e) => !valid_secret(data@) && e == KeyError::InvalidSecretKey,
            },
    {
        match parse_secret(data) {
            Ok(bytes) => Ok(SecretKey { bytes }),
            Err(_) => Err(KeyError::InvalidSecretKey),
        }
    }

    /// The bytes of the secret key.
    pub fn secret_bytes(&self) -> (bytes: [u8; 32])
        ensures
            bytes@ == self@,
            valid_secret(bytes@),
    {
        proof {
            use_type_invariant(self);
        }
        self.bytes
    }
}

impl PublicKey {
    /// The two forms are of one point of the curve.
    #[verifier::type_invariant]
    spec fn forms_agree(self) -> bool {
        &&& valid_point(self.uncompressed@)
        &&& self.compressed@ == compressed_form(self.uncompressed@)
    }

    /// The public key of a secret key.
    pub fn from_secret_key(secret: &SecretKey) -> (public: PublicKey)
        ensures
            public@ == public_point(secret@)@,
    {
        proof {
            use_type_invariant(secret);
        }
        let (compressed, uncompressed) = derive_point(&secret.bytes);
        PublicKey { compressed, uncompressed }
    }

    /// The compressed form.
    pub fn serialize(&self) -> (bytes: [u8; 33])
        ensures
            bytes@ == compressed_form(self@),
    {
        proof {
            use_type_invariant(self);
        }
        self.compressed
    }

    /// The uncompressed form.
    pub fn serialize_uncompressed(&self) -> (bytes: [u8; 65])
        ensures
            bytes@ == self@,
            valid_point(bytes@),
    {
        proof {
            use_type_invariant(self);
        }
        self.uncompressed
    }
}

/// The keys that were drawn: a secret key, and the compressed and the uncompressed form of a point.
/// There is a pair of keys exactly if one was drawn.
pub fn keypair_of(drawn: Option<([u8; 32], ([u8; 33], [u8; 65]))>) -> (pair: Option<
    (SecretKey, PublicKey),
>)
    requires
        drawn matches Some((secret, forms)) ==> {
            &&& valid_secret(secret@)
            &&& valid_point(forms.1@)
            &&& forms.0@ == compressed_form(forms.1@)
        },
    ensures
        match drawn {
            Some((secret, forms)) => pair matches Some((s, p)) && s@ == secret@ && p@ == forms.1@,
            None => pair is None,
        },
{
    match drawn {
        Some((bytes, (compressed, uncompressed))) => Some(
            (SecretKey { bytes }, PublicKey { compressed, uncompressed }),
        ),
        None => None,
    }
}

/// Draws a new pair of keys; `None` if there is no source of randomness.
pub fn generate_keypair() -> (pair: Option<(SecretKey, PublicKey)>)
    ensures
        pair matches Some((secret, public)) ==> {
            &&& valid_secret(secret@)
            &&& public@ == public_point(secret@)@
        },
{
    keypair_of(draw_pair())
}

/// The range of secret keys, and the short form of a point: it has the x coordinate, and two more
/// in front of it than the last bit of the y coordinate.
pub proof fn lemma_forms(bytes: Seq<u8>, point: Seq<u8>)
    ensures
        valid_secret(bytes) <==> {
            &&& bytes.len() == 32
            &&& 0 < value(bytes.map_values(|b: u8| b as nat), 256)
            &&& value(bytes.map_values(|b: u8| b as nat), 256)
                < 0xfffffffffffffffffffffffffffffffebaaedce6af48a03bbfd25e8cd0364141nat
        },
        point.len() == 65 ==> {
            &&& compressed_form(point).len() == 33
            &&& compressed_form(point)[0] == 2 + point[64] % 2
            &&& forall|i: int|
                1 <= i < 33 ==> #[trigger] compressed_form(point)[i] == point[i]
        },
{
    assert(bytes.map_values(|b: u8| b as nat) =~= as_digits(bytes));
}

} // verus!
