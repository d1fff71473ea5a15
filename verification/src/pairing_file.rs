//! The remote-pairing file: the host's Ed25519 key pair, its identifier and the optional
//! `alt_irk`, and their property-list form.
use ed25519_dalek::{SigningKey, VerifyingKey};
use rsa::rand_core::OsRng;
use vstd::prelude::*;
use vstd::string::StringSliceAdditionalSpecFns;

use crate::plist_model::{
    dict_get, dictionary_get, entries_model, has_key, keys_distinct, lemma_dictionary_model,
    PlistModel, PlistValue,
};

verus! {

/// The Ed25519 public key that belongs to a 32-byte secret key.
pub uninterp spec fn ed25519_public_key(secret: Seq<u8>) -> Seq<u8>;

/// Whether 32 bytes are the compressed form of a point on the curve.
pub uninterp spec fn ed25519_point_valid(bytes: Seq<u8>) -> bool;

/// The entries of the dictionary that `plist::from_bytes` reads from `bytes` (an XML or a
/// binary property list), in their order, with data and string values as they are and every
/// other value as `Unencodable`; none when the bytes are not a property list whose top level
/// is a dictionary.
pub uninterp spec fn plist_dictionary_fields(bytes: Seq<u8>) -> Option<Seq<(Seq<char>, PlistModel)>>;

/// `plist::from_bytes::<plist::Dictionary>`, with each entry moved over: data and strings as
/// they are, any other value as `Unencodable`.  A function of the bytes alone; a
/// `plist::Dictionary` holds each key once.
#[verifier::external_body]
fn parse_plist_dictionary(bytes: &[u8]) -> (r: Option<Vec<(String, PlistValue)>>)
    ensures
        match plist_dictionary_fields(bytes@) {
            Some(es) => r matches Some(v) && entries_model(v@) == es && keys_distinct(es),
            None => r is None,
        },
{
    let dict: plist::Dictionary = plist::from_bytes(bytes).ok()?;
    Some(dict.into_iter().map(|(key, value)| match value {
        plist::Value::Data(d) => (key, PlistValue::Data(d)),
        plist::Value::String(t) => (key, PlistValue::String(t)),
        _ => (key, PlistValue::Unencodable),
    }).collect())
}

/// The XML property list that `plist_macro::plist_to_xml_bytes` writes for a dictionary of
/// these entries.
pub uninterp spec fn plist_xml_bytes(entries: Seq<(Seq<char>, PlistModel)>) -> Seq<u8>;

/// Every value is data or a string.
pub open spec fn data_and_strings(entries: Seq<(Seq<char>, PlistModel)>) -> bool {
    forall|i: int|
        0 <= i < entries.len() ==> (#[trigger] entries[i]).1 is Data || entries[i].1 is String
}

/// `plist_macro::plist_to_xml_bytes` on a `plist::Dictionary` that holds the entries, in
/// order; the `requires` keeps values of other kinds out.  A function of the entries alone;
/// writing data and strings into memory does not fail.
#[verifier::external_body]
fn xml_dictionary_bytes(entries: &[(String, PlistValue)]) -> (r: Vec<u8>)
    requires
        data_and_strings(entries_model(entries@)),
    ensures
        r@ == plist_xml_bytes(entries_model(entries@)),
{
    let mut dict = plist::Dictionary::new();
    for (key, value) in entries {
        match value {
            PlistValue::Data(d) => dict.insert(key.clone(), plist::Value::Data(d.clone())),
            PlistValue::String(t) => dict.insert(key.clone(), plist::Value::String(t.clone())),
            _ => None,
        };
    }
    plist_macro::plist_to_xml_bytes(&dict)
}

/// The hyphenated text of the version-3 UUID of `name` in the DNS namespace.
pub uninterp spec fn uuid_v3_dns(name: Seq<u8>) -> Seq<char>;

/// `SigningKey::generate` with the operating system's random source, as its secret bytes.
/// Nothing is promised of the bytes: they are random.
#[verifier::external_body]
fn generate_secret_key() -> (r: [u8; 32]) {
    SigningKey::generate(&mut OsRng).to_bytes()
}

/// `VerifyingKey::from(&SigningKey::from_bytes(..))`, as its compressed bytes: a function of
/// the secret bytes alone.  They are the compression of a curve point, so they decompress.
#[verifier::external_body]
fn derive_public_key(secret: &[u8; 32]) -> (r: [u8; 32])
    ensures
        r@ == ed25519_public_key(secret@),
        ed25519_point_valid(r@),
{
    VerifyingKey::from(&SigningKey::from_bytes(secret)).to_bytes()
}

/// `VerifyingKey::from_bytes`: whether the bytes decompress to a curve point.  On success the
/// key keeps these very bytes as its compressed form.
#[verifier::external_body]
fn is_valid_public_key(bytes: &[u8; 32]) -> (r: bool)
    ensures
        r == ed25519_point_valid(bytes@),
{
    match VerifyingKey::from_bytes(bytes) {
        Ok(_) => true,
        Err(_) => false,
    }
}

/// `uuid::Uuid::new_v3(&Uuid::NAMESPACE_DNS, name)`, in its hyphenated text form.
#[verifier::external_body]
fn uuid_v3_dns_string(name: &str) -> (r: String)
    ensures
        r@ == uuid_v3_dns(name.spec_bytes()),
{
    uuid::Uuid::new_v3(&uuid::Uuid::NAMESPACE_DNS, name.as_bytes()).to_string()
}

/// The pairing file of a remote-pairing host.
#[derive(Clone)]
pub struct RpPairingFile {
    /// The Ed25519 secret key.
    pub e_private_key: [u8; 32],
    /// The compressed Ed25519 public key.
    pub e_public_key: [u8; 32],
    pub identifier: String,
    /// The 16-byte `alt_irk`, when the file has one.
    pub alt_irk: Option<[u8; 16]>,
}

/// The mathematical value of a pairing file.
pub struct PairingModel {
    pub private_key: Seq<u8>,
    pub public_key: Seq<u8>,
    pub identifier: Seq<char>,
    pub alt_irk: Option<Seq<u8>>,
}

impl View for RpPairingFile {
    type V = PairingModel;

    open spec fn view(&self) -> PairingModel {
        PairingModel {
            private_key: self.e_private_key@,
            public_key: self.e_public_key@,
            identifier: self.identifier@,
            alt_irk: match self.alt_irk {
                Some(v) => Some(v@),
                None => None,
            },
        }
    }
}

/// The field that a pairing dictionary lacks, or holds in the wrong form.
#[derive(Debug, Clone, Copy, PartialEq, Eq)]
pub enum PairingField {
    PublicKey,
    PrivateKey,
    Identifier,
}

/// Why a dictionary is not a pairing file.
#[derive(Debug, Clone, Copy, PartialEq, Eq)]
pub enum PairingFileError {
    /// The bytes are not a property list whose top level is a dictionary.
    NotADictionary,
    /// The field is absent, or is not what the pairing file needs there.
    MissingField(PairingField),
}

/// The bytes of a data value.
pub open spec fn data_of(v: Option<PlistModel>) -> Option<Seq<u8>> {
    match v {
        Some(PlistModel::Data(d)) => Some(d),
        _ => None,
    }
}

/// The characters of a string value.
pub open spec fn string_of(v: Option<PlistModel>) -> Option<Seq<char>> {
    match v {
        Some(PlistModel::String(s)) => Some(s),
        _ => None,
    }
}

/// The `alt_irk` that a dictionary holds: its data when that is 16 bytes long, and none
/// otherwise.
pub open spec fn irk_of(v: Option<PlistModel>) -> Option<Seq<u8>> {
    match data_of(v) {
        Some(d) => if d.len() == 16 {
            Some(d)
        } else {
            None
        },
        None => None,
    }
}

/// The pairing file that a dictionary describes: a 32-byte public key that is a curve point,
/// a 32-byte private key, a string identifier, and optionally 16 bytes of data for `alt_irk`.
pub open spec fn spec_from_dictionary(es: Seq<(Seq<char>, PlistModel)>) -> Result<
    PairingModel,
    PairingFileError,
> {
    let public_key = data_of(dict_get(es, "public_key"@));
    let private_key = data_of(dict_get(es, "private_key"@));
    let identifier = string_of(dict_get(es, "identifier"@));
    if !(public_key matches Some(k) && k.len() == 32 && ed25519_point_valid(k)) {
        Err(PairingFileError::MissingField(PairingField::PublicKey))
    } else if !(private_key matches Some(k) && k.len() == 32) {
        Err(PairingFileError::MissingField(PairingField::PrivateKey))
    } else if identifier is None {
        Err(PairingFileError::MissingField(PairingField::Identifier))
    } else {
        Ok(
            PairingModel {
                private_key: private_key->0,
                public_key: public_key->0,
                identifier: identifier->0,
                alt_irk: irk_of(dict_get(es, "alt_irk"@)),
            },
        )
    }
}

/// The dictionary that describes a pairing file, in the order its fields are written.
pub open spec fn spec_to_dictionary(m: PairingModel) -> Seq<(Seq<char>, PlistModel)> {
    let keys = seq![
        ("public_key"@, PlistModel::Data(m.public_key)),
        ("private_key"@, PlistModel::Data(m.private_key)),
        ("identifier"@, PlistModel::String(m.identifier)),
    ];
    match m.alt_irk {
        Some(irk) => keys.push(("alt_irk"@, PlistModel::Data(irk))),
        None => keys,
    }
}

fn copy_key(bytes: &Vec<u8>) -> (r: [u8; 32])
    requires
        bytes@.len() == 32,
    ensures
        r@ == bytes@,
{
    let mut out = [0u8; 32];
    let mut i: usize = 0;
    while i < 32
        invariant
            i <= 32,
            bytes@.len() == 32,
            forall|j: int| 0 <= j < i ==> out@[j] == bytes@[j],
        decreases 32 - i,
    {
        out[i] = bytes[i];
        i += 1;
    }
    proof {
        assert(out@ =~= bytes@);
    }
    out
}

fn copy_irk(bytes: &Vec<u8>) -> (r: [u8; 16])
    requires
        bytes@.len() == 16,
    ensures
        r@ == bytes@,
{
    let mut out = [0u8; 16];
    let mut i: usize = 0;
    while i < 16
        invariant
            i <= 16,
            bytes@.len() == 16,
            forall|j: int| 0 <= j < i ==> out@[j] == bytes@[j],
        decreases 16 - i,
    {
        out[i] = bytes[i];
        i += 1;
    }
    proof {
        assert(out@ =~= bytes@);
    }
    out
}

fn get_data<'a>(entries: &'a [(String, PlistValue)], key: &str) -> (r: Option<&'a Vec<u8>>)
    ensures
        match data_of(dict_get(entries_model(entries@), key@)) {
            Some(d) => r matches Some(x) && x@ == d,
            None => r is None,
        },
{
    match dictionary_get(entries, key) {
        Some(PlistValue::Data(d)) => Some(d),
        _ => None,
    }
}

impl RpPairingFile {
    /// Returns the Ed25519 public key bytes (32 bytes).
    pub fn public_key_bytes(&self) -> (r: Vec<u8>)
        ensures
            r@ == self.e_public_key@,
    {
        vstd::slice::slice_to_vec(self.e_public_key.as_slice())
    }

    /// Returns the Ed25519 private key bytes (32 bytes).
    pub fn private_key_bytes(&self) -> (r: Vec<u8>)
        ensures
            r@ == self.e_private_key@,
    {
        vstd::slice::slice_to_vec(self.e_private_key.as_slice())
    }

    /// Returns the identifier string.
    pub fn identifier(&self) -> (r: &str)
        ensures
            r@ == self.identifier@,
    {
        self.identifier.as_str()
    }

    /// Returns the `alt_irk` bytes (16 bytes).
    pub fn alt_irk(&self) -> (r: Option<&[u8]>)
        ensures
            match self.alt_irk {
                Some(v) => r matches Some(x) && x@ == v@ && x@.len() == 16,
                None => r is None,
            },
    {
        match &self.alt_irk {
            Some(v) => Some(v.as_slice()),
            None => None,
        }
    }

    /// A new pairing file for `sending_host`: a fresh random key pair, and the DNS-namespace
    /// UUID of the host name as its identifier.
    pub fn generate(sending_host: &str) -> (r: Self)
        ensures
            r.e_public_key@ == ed25519_public_key(r.e_private_key@),
            ed25519_point_valid(r.e_public_key@),
            r.identifier@ == uuid_v3_dns(sending_host.spec_bytes()),
            r.alt_irk is None,
    {
        let secret = generate_secret_key();
        let public = derive_public_key(&secret);
        let identifier = uuid_v3_dns_string(sending_host);
        RpPairingFile { e_private_key: secret, e_public_key: public, identifier, alt_irk: None }
    }

    /// Replaces the key pair with a fresh random one and forgets `alt_irk`.
    pub fn recreate_signing_keys(&mut self)
        ensures
            final(self).e_public_key@ == ed25519_public_key(final(self).e_private_key@),
            ed25519_point_valid(final(self).e_public_key@),
            final(self).identifier == old(self).identifier,
            final(self).alt_irk is None,
    {
        let secret = generate_secret_key();
        let public = derive_public_key(&secret);
        self.e_public_key = public;
        self.e_private_key = secret;
        self.alt_irk = None;
    }

    /// The dictionary that the pairing file is stored as.
    pub fn to_dictionary(&self) -> (r: Vec<(String, PlistValue)>)
        ensures
            entries_model(r@) == spec_to_dictionary(self@),
    {
        let mut dict: Vec<(String, PlistValue)> = Vec::new();
        dict.push(("public_key".to_owned(), PlistValue::Data(self.public_key_bytes())));
        dict.push(("private_key".to_owned(), PlistValue::Data(self.private_key_bytes())));
        dict.push(("identifier".to_owned(), PlistValue::String(self.identifier.clone())));
        match &self.alt_irk {
            Some(irk) => dict.push(
                ("alt_irk".to_owned(), PlistValue::Data(vstd::slice::slice_to_vec(irk.as_slice()))),
            ),
            None => {},
        }
        proof {
            assert(entries_model(dict@) =~= spec_to_dictionary(self@));
        }
        dict
    }

    /// Serialize to XML plist bytes.
    pub fn to_bytes(&self) -> (r: Vec<u8>)
        ensures
            r@ == plist_xml_bytes(spec_to_dictionary(self@)),
    {
        let dict = self.to_dictionary();
        xml_dictionary_bytes(dict.as_slice())
    }

    /// Parse from plist bytes (XML or binary).
    pub fn from_bytes(bytes: &[u8]) -> (r: Result<Self, PairingFileError>)
        ensures
            match plist_dictionary_fields(bytes@) {
                None => r == Err::<Self, PairingFileError>(PairingFileError::NotADictionary),
                Some(es) => match spec_from_dictionary(es) {
                    Ok(m) => r matches Ok(f) && f@ == m,
                    Err(e) => r == Err::<Self, PairingFileError>(e),
                },
            },
    {
        match parse_plist_dictionary(bytes) {
            Some(entries) => Self::from_dictionary(entries.as_slice()),
            None => Err(PairingFileError::NotADictionary),
        }
    }

    /// The pairing file that a dictionary describes.
    pub fn from_dictionary(entries: &[(String, PlistValue)]) -> (r: Result<Self, PairingFileError>)
        ensures
            match spec_from_dictionary(entries_model(entries@)) {
                Ok(m) => r matches Ok(f) && f@ == m,
                Err(e) => r == Err::<Self, PairingFileError>(e),
            },
    {
        let public_key = match get_data(entries, "public_key") {
            Some(p) => {
                if p.len() != 32 {
                    return Err(PairingFileError::MissingField(PairingField::PublicKey));
                }
                let key = copy_key(p);
                if !is_valid_public_key(&key) {
                    return Err(PairingFileError::MissingField(PairingField::PublicKey));
                }
                key
            },
            None => return Err(PairingFileError::MissingField(PairingField::PublicKey)),
        };
        let private_key = match get_data(entries, "private_key") {
            Some(p) => {
                if p.len() != 32 {
                    return Err(PairingFileError::MissingField(PairingField::PrivateKey));
                }
                copy_key(p)
            },
            None => return Err(PairingFileError::MissingField(PairingField::PrivateKey)),
        };
        let identifier = match dictionary_get(entries, "identifier") {
            Some(PlistValue::String(s)) => s.clone(),
            _ => return Err(PairingFileError::MissingField(PairingField::Identifier)),
        };
        let alt_irk = match get_data(entries, "alt_irk") {
            Some(irk) => if irk.len() == 16 {
                Some(copy_irk(irk))
            } else {
                None
            },
            None => None,
        };
        Ok(RpPairingFile { e_private_key: private_key, e_public_key: public_key, identifier, alt_irk })
    }
}

/// The dictionary that a pairing file is stored as holds its public key, private key and
/// identifier, in that order and each once, and an `alt_irk` entry exactly when the file has an
/// `alt_irk`: without one it has just those three keys.
pub proof fn lemma_dictionary_keys(m: PairingModel)
    ensures
        ({
            let es = spec_to_dictionary(m);
            &&& es.len() >= 3
            &&& es[0] == ("public_key"@, PlistModel::Data(m.public_key))
            &&& es[1] == ("private_key"@, PlistModel::Data(m.private_key))
            &&& es[2] == ("identifier"@, PlistModel::String(m.identifier))
            &&& has_key(es, "alt_irk"@) <==> m.alt_irk is Some
            &&& m.alt_irk is None ==> es.len() == 3
            &&& m.alt_irk matches Some(irk) ==> es.len() == 4 && es[3] == ("alt_irk"@, PlistModel::Data(irk))
            &&& keys_distinct(es)
        }),
{
    reveal_strlit("public_key");
    reveal_strlit("private_key");
    reveal_strlit("identifier");
    reveal_strlit("alt_irk");
    let es = spec_to_dictionary(m);
    assert("private_key"@[1] != "public_key"@[1]);
    assert("identifier"@[0] != "public_key"@[0]);
    assert("identifier"@[0] != "private_key"@[0]);
    assert("alt_irk"@[0] != "public_key"@[0]);
    assert("alt_irk"@[0] != "private_key"@[0]);
    assert("alt_irk"@[0] != "identifier"@[0]);
    if m.alt_irk is Some {
        assert(es[3].0 == "alt_irk"@);
    } else {
        assert(!has_key(es, "alt_irk"@)) by {
            if has_key(es, "alt_irk"@) {
                let i = choose|i: int| 0 <= i < es.len() && es[i].0 == "alt_irk"@;
                assert(0 <= i < 3);
            }
        }
    }
}

/// Reading back the dictionary that a pairing file is stored as gives the same pairing file,
/// whenever its public key is a curve point (as `generate` makes it) and its `alt_irk`, if any,
/// is 16 bytes long.
pub proof fn lemma_dictionary_roundtrip(m: PairingModel)
    requires
        m.public_key.len() == 32,
        m.private_key.len() == 32,
        ed25519_point_valid(m.public_key),
        m.alt_irk matches Some(irk) ==> irk.len() == 16,
    ensures
        spec_from_dictionary(spec_to_dictionary(m)) == Ok::<PairingModel, PairingFileError>(m),
{
    reveal_strlit("public_key");
    reveal_strlit("private_key");
    reveal_strlit("identifier");
    reveal_strlit("alt_irk");
    let es = spec_to_dictionary(m);
    assert("private_key"@[1] != "public_key"@[1]);
    assert("identifier"@[0] != "public_key"@[0]);
    assert("identifier"@[0] != "private_key"@[0]);
    assert("alt_irk"@[0] != "public_key"@[0]);
    assert("alt_irk"@[0] != "private_key"@[0]);
    assert("alt_irk"@[0] != "identifier"@[0]);
    assert(dict_get(es, "public_key"@) == Some(PlistModel::Data(m.public_key)));
    assert(es.drop_first()[0].0 == "private_key"@);
    assert(dict_get(es.drop_first(), "private_key"@) == Some(PlistModel::Data(m.private_key)));
    assert(dict_get(es, "private_key"@) == Some(PlistModel::Data(m.private_key)));
    assert(es.drop_first().drop_first()[0].0 == "identifier"@);
    assert(dict_get(es.drop_first().drop_first(), "identifier"@) == Some(
        PlistModel::String(m.identifier),
    ));
    assert(dict_get(es.drop_first(), "identifier"@) == Some(PlistModel::String(m.identifier)));
    assert(dict_get(es, "identifier"@) == Some(PlistModel::String(m.identifier)));
    match m.alt_irk {
        Some(irk) => {
            let t3 = es.drop_first().drop_first().drop_first();
            assert(t3[0].0 == "alt_irk"@);
            assert(dict_get(t3, "alt_irk"@) == Some(PlistModel::Data(irk)));
            assert(dict_get(es.drop_first().drop_first(), "alt_irk"@) == Some(PlistModel::Data(irk)));
            assert(dict_get(es.drop_first(), "alt_irk"@) == Some(PlistModel::Data(irk)));
            assert(dict_get(es, "alt_irk"@) == Some(PlistModel::Data(irk)));
        },
        None => {
            let t3 = es.drop_first().drop_first().drop_first();
            assert(t3 =~= Seq::<(Seq<char>, PlistModel)>::empty());
            assert(dict_get(t3, "alt_irk"@) == None::<PlistModel>);
            assert(dict_get(es.drop_first().drop_first(), "alt_irk"@) == None::<PlistModel>);
            assert(dict_get(es.drop_first(), "alt_irk"@) == None::<PlistModel>);
            assert(dict_get(es, "alt_irk"@) == None::<PlistModel>);
        },
    }
}

} // verus!
