//! The desktop agent's configuration: its identity, the server to report
//! to, and the stored password hash — together with the rules for censoring
//! the password on the way out and resolving it on the way back in. Reading
//! and writing the configuration file is the surrounding process's job; the
//! decisions about its contents live here.

use vstd::prelude::*;

use crate::order::str_eq;
use vstd::utf8::encode_utf8;

verus! {

/// Mathematical model of [`Settings`].
pub ghost struct SettingsView {
    pub id: Seq<char>,
    pub remote: Seq<char>,
    pub name: Option<Seq<char>>,
    pub autostart: bool,
    pub password: Option<Seq<char>>,
}

/// The agent's configuration.
pub struct Settings {
    pub id: String,
    pub remote: String,
    pub name: Option<String>,
    pub autostart: bool,
    pub password: Option<String>,
}

impl View for Settings {
    type V = SettingsView;

    open spec fn view(&self) -> SettingsView {
        SettingsView {
            id: self.id@,
            remote: self.remote@,
            name: self.name.deep_view(),
            autostart: self.autostart,
            password: self.password.deep_view(),
        }
    }
}

impl Clone for Settings {
    fn clone(&self) -> (r: Self)
        ensures
            r@ == self@,
    {
        Settings {
            id: self.id.clone(),
            remote: self.remote.clone(),
            name: match &self.name {
                None => None,
                Some(n) => Some(n.clone()),
            },
            autostart: self.autostart,
            password: match &self.password {
                None => None,
                Some(p) => Some(p.clone()),
            },
        }
    }
}

/// Relies on uuid's `Uuid::new_v4` and its `Display` impl: a fresh random
/// version-4 UUID, rendered in the hyphenated form, which is exactly 36
/// characters. Nothing more can be said of a random value.
#[verifier::external_body]
fn fresh_uuid() -> (r: String)
    ensures
        r@.len() == 36,
{
    uuid::Uuid::new_v4().to_string()
}

/// A fresh default configuration: a newly generated client id, the default
/// server, no display name, autostart on, no password.
pub fn default_config() -> (r: Settings)
    ensures
        r@.id.len() == 36,
        r@.remote == "https://lan.pein.dev"@,
        r@.name is None,
        r@.autostart == true,
        r@.password is None,
{
    Settings {
        id: fresh_uuid(),
        remote: "https://lan.pein.dev".to_owned(),
        name: None,
        autostart: true,
        password: None,
    }
}

/// What a stored password looks like after censoring.
pub open spec fn placeholder() -> Seq<char> {
    "(unchanged)"@
}

/// A censored configuration: the same settings with any stored password
/// replaced by the placeholder.
pub open spec fn censor_model(s: SettingsView) -> SettingsView {
    SettingsView {
        password: match s.password {
            Some(_) => Some(placeholder()),
            None => None,
        },
        ..s
    }
}

/// The configuration as handed out: censored — the stored password hash
/// replaced by a placeholder — when it leaves the process, verbatim when
/// used internally. The surrounding process supplies the parsed file.
pub fn get_config(loaded: Settings, censor: bool) -> (r: Settings)
    ensures
        censor ==> r@ == censor_model(loaded@),
        !censor ==> r@ == loaded@,
{
    if censor {
        let Settings { id, remote, name, autostart, password } = loaded;
        Settings {
            id,
            remote,
            name,
            autostart,
            password: match password {
                Some(_) => Some("(unchanged)".to_owned()),
                None => None,
            },
        }
    } else {
        loaded
    }
}

/// The configuration a first start writes: a fresh default. The surrounding
/// process persists it.
pub fn create_default_config() -> (r: Settings)
    ensures
        r@.id.len() == 36,
        r@.remote == "https://lan.pein.dev"@,
        r@.name is None,
        r@.autostart == true,
        r@.password is None,
{
    default_config()
}

/// The configuration to work with: the loaded one (censored on request)
/// when the file could be read, a fresh default otherwise.
pub fn get_or_create_config(loaded: Option<Settings>, censor: bool) -> (r: Settings)
    ensures
        match loaded {
            Some(l) => (censor ==> r@ == censor_model(l@)) && (!censor ==> r@ == l@),
            None => {
                &&& r@.id.len() == 36
                &&& r@.remote == "https://lan.pein.dev"@
                &&& r@.name is None
                &&& r@.autostart == true
                &&& r@.password is None
            },
        },
{
    match loaded {
        Some(l) => get_config(l, censor),
        None => create_default_config(),
    }
}

/// The SHA-256 digest of a byte sequence.
pub uninterp spec fn sha256_of(data: Seq<u8>) -> Seq<u8>;

/// Relies on sha2's `Sha256` through the `Digest` trait: the digest is a
/// function of the input bytes alone, and is 32 bytes long.
#[verifier::external_body]
fn sha256_digest(data: &[u8]) -> (r: Vec<u8>)
    ensures
        r@ == sha256_of(data@),
        r@.len() == 32,
{
    <sha2::Sha256 as sha2::Digest>::digest(data).to_vec()
}

/// The lowercase hexadecimal digit for a value below 16.
pub open spec fn hex_digit(n: u8) -> char {
    if n < 10 {
        ((48 + n) as u8) as char
    } else {
        ((87 + n) as u8) as char
    }
}

/// The lowercase hexadecimal rendering of a byte sequence: two digits per
/// byte, high digit first.
pub open spec fn hex_of(data: Seq<u8>) -> Seq<char>
    decreases data.len(),
{
    if data.len() == 0 {
        Seq::<char>::empty()
    } else {
        hex_of(data.drop_last()) + seq![
            hex_digit(data.last() / 16),
            hex_digit(data.last() % 16),
        ]
    }
}

/// The lowercase hexadecimal digit for a value below 16, as a string slice.
fn hex_digit_str(d: u8) -> (r: &'static str)
    requires
        d < 16,
    ensures
        r@ == seq![hex_digit(d)],
{
    proof {
        reveal_strlit("0");
        reveal_strlit("1");
        reveal_strlit("2");
        reveal_strlit("3");
        reveal_strlit("4");
        reveal_strlit("5");
        reveal_strlit("6");
        reveal_strlit("7");
        reveal_strlit("8");
        reveal_strlit("9");
        reveal_strlit("a");
        reveal_strlit("b");
        reveal_strlit("c");
        reveal_strlit("d");
        reveal_strlit("e");
        reveal_strlit("f");
    }
    let r = match d {
        0 => "0",
        1 => "1",
        2 => "2",
        3 => "3",
        4 => "4",
        5 => "5",
        6 => "6",
        7 => "7",
        8 => "8",
        9 => "9",
        10 => "a",
        11 => "b",
        12 => "c",
        13 => "d",
        14 => "e",
        _ => "f",
    };
    proof {
        assert(r@ =~= seq![hex_digit(d)]);
    }
    r
}

/// Render bytes as lowercase hexadecimal.
pub fn to_hex_lower(data: &Vec<u8>) -> (r: String)
    ensures
        r@ == hex_of(data@),
{
    let mut r = String::new();
    let mut i: usize = 0;
    while i < data.len()
        invariant
            i <= data.len(),
            r@ =~= hex_of(data@.subrange(0, i as int)),
        decreases data.len() - i,
    {
        let ghost prefix = data@.subrange(0, i as int);
        let ghost next = data@.subrange(0, i + 1);
        proof {
            assert(next.drop_last() =~= prefix);
            assert(next.last() == data@[i as int]);
        }
        let b = data[i];
        r.append(hex_digit_str(b / 16));
        r.append(hex_digit_str(b % 16));
        proof {
            assert(r@ =~= hex_of(next));
        }
        i = i + 1;
    }
    proof {
        assert(data@.subrange(0, data@.len() as int) =~= data@);
    }
    r
}

/// The stored form of a password: the lowercase hexadecimal SHA-256 digest
/// of its UTF-8 bytes.
pub fn hash_password(p: &str) -> (r: String)
    ensures
        r@ == hex_of(sha256_of(encode_utf8(p@))),
{
    let digest = sha256_digest(p.as_bytes());
    to_hex_lower(&digest)
}

/// The password field a saved configuration keeps: the placeholder keeps
/// whatever was stored before, a real password is stored as its hash, and
/// no password stays none.
pub open spec fn resolve_password_model(
    new: Option<Seq<char>>,
    existing: Option<Seq<char>>,
) -> Option<Seq<char>> {
    match new {
        None => None,
        Some(p) => {
            if p == placeholder() {
                existing
            } else {
                Some(hex_of(sha256_of(encode_utf8(p))))
            }
        },
    }
}

/// Resolve the password of a configuration about to be saved against the
/// one currently stored.
pub fn resolve_password(new: Option<String>, existing: Option<String>) -> (r: Option<String>)
    ensures
        r.deep_view() == resolve_password_model(new.deep_view(), existing.deep_view()),
{
    match new {
        None => None,
        Some(p) => {
            if str_eq(p.as_str(), "(unchanged)") {
                existing
            } else {
                Some(hash_password(p.as_str()))
            }
        },
    }
}

/// The configuration as it is saved: the same settings with the password
/// resolved against the stored one. The surrounding process serializes and
/// writes the result.
pub fn resolve_config(config: Settings, existing_password: Option<String>) -> (r: Settings)
    ensures
        r@.id == config@.id,
        r@.remote == config@.remote,
        r@.name == config@.name,
        r@.autostart == config@.autostart,
        r@.password == resolve_password_model(
            config@.password,
            existing_password.deep_view(),
        ),
{
    let Settings { id, remote, name, autostart, password } = config;
    Settings { id, remote, name, autostart, password: resolve_password(password, existing_password) }
}

} // verus!
