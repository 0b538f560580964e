//! Versions of the protocol, and the first frames of a connection.

use vstd::prelude::*;

use crate::strings::{dec, lemma_dec_is_injective, lemma_dec_is_read_back, push_dec};

verus! {

/// A version of the protocol.
#[derive(Debug, Clone, Copy, PartialEq, Eq, PartialOrd, Ord, Structural)]
pub struct Version {
    /// Two ends can talk only where this is the same.
    pub major: u16,
    /// What has been added since `major` began.
    pub minor: u16,
}

/// The major version that this library speaks.
pub const PROTOCOL_MAJOR: u16 = 1;

/// The minor version that this library speaks.
pub const PROTOCOL_MINOR: u16 = 0;

/// The version that this library speaks.
pub open spec fn own_version() -> Version {
    Version { major: PROTOCOL_MAJOR, minor: PROTOCOL_MINOR }
}

/// The version that this library speaks.
pub fn protocol_version() -> (r: Version)
    ensures
        r == own_version(),
{
    Version { major: PROTOCOL_MAJOR, minor: PROTOCOL_MINOR }
}

/// The major versions of two ends differ.
#[derive(Debug, Clone, Copy, PartialEq, Eq, Structural)]
pub struct VersionMismatch {
    pub local: Version,
    pub remote: Version,
}

/// The version that two ends use: the lower of the two, where the major versions are the same.
pub open spec fn negotiated(local: Version, remote: Version) -> Result<Version, VersionMismatch> {
    if local.major != remote.major {
        Err(VersionMismatch { local, remote })
    } else {
        Ok(
            Version {
                major: local.major,
                minor: if local.minor <= remote.minor {
                    local.minor
                } else {
                    remote.minor
                },
            },
        )
    }
}

/// A version in words.
pub open spec fn version_text(v: Version) -> Seq<char> {
    dec(v.major as nat) + "."@ + dec(v.minor as nat)
}

/// A mismatch in words.
pub open spec fn mismatch_text(m: VersionMismatch) -> Seq<char> {
    "协议主版本不兼容：本端 "@ + version_text(m.local) + "，对端 "@ + version_text(m.remote)
}

impl Version {
    /// The version that two ends use.
    pub fn negotiate(self, remote: Self) -> (r: Result<Self, VersionMismatch>)
        ensures
            r == negotiated(self, remote),
    {
        if self.major != remote.major {
            return Err(VersionMismatch { local: self, remote });
        }
        Ok(
            Version {
                major: self.major,
                minor: if self.minor <= remote.minor {
                    self.minor
                } else {
                    remote.minor
                },
            },
        )
    }

    /// The version in words.
    pub fn to_string(&self) -> (r: String)
        ensures
            r@ == version_text(*self),
    {
        let mut r = String::new();
        push_dec(&mut r, self.major as u64);
        assert(r@ =~= dec(self.major as nat));
        r.append(".");
        push_dec(&mut r, self.minor as u64);
        r
    }
}

impl VersionMismatch {
    /// The mismatch in words.
    pub fn to_string(&self) -> (r: String)
        ensures
            r@ == mismatch_text(*self),
    {
        let mut r = "协议主版本不兼容：本端 ".to_owned();
        let local = self.local.to_string();
        r.append(local.as_str());
        r.append("，对端 ");
        let remote = self.remote.to_string();
        r.append(remote.as_str());
        r
    }
}

/// The two ends agree on what they use, whichever of them asks.
pub proof fn lemma_negotiation_is_symmetric(a: Version, b: Version)
    ensures
        match (negotiated(a, b), negotiated(b, a)) {
            (Ok(x), Ok(y)) => x == y,
            (Err(x), Err(y)) => x.local == y.remote && x.remote == y.local,
            _ => false,
        },
{
}

/// Two versions that are written alike are the same.
pub proof fn lemma_version_is_written_apart(a: Version, b: Version)
    ensures
        version_text(a) == version_text(b) ==> a == b,
{
    reveal_strlit(".");
    lemma_dec_is_read_back(a.major as nat);
    lemma_dec_is_read_back(b.major as nat);
    let x = dec(a.major as nat);
    let y = dec(b.major as nat);
    let s = version_text(a);
    let t = version_text(b);
    assert(s[x.len() as int] == '.' && t[y.len() as int] == '.');
    if s == t {
        if x.len() < y.len() {
            assert(t[x.len() as int] == y[x.len() as int]);
        }
        if y.len() < x.len() {
            assert(s[y.len() as int] == x[y.len() as int]);
        }
        assert(x =~= s.take(x.len() as int) && y =~= t.take(y.len() as int));
        assert(dec(a.minor as nat) =~= s.skip(x.len() as int + 1));
        assert(dec(b.minor as nat) =~= t.skip(y.len() as int + 1));
        lemma_dec_is_injective(a.major as nat, b.major as nat);
        lemma_dec_is_injective(a.minor as nat, b.minor as nat);
    }
}

/// Versions with the same major number always agree, whatever their minor numbers are, and others
/// never do; then each side is told both versions.
pub proof fn lemma_major_decides(a: Version, b: Version)
    ensures
        a.major == b.major <==> negotiated(a, b) is Ok,
        a.major != b.major ==> (negotiated(a, b) matches Err(e) && e.local == a && e.remote == b),
{
}

/// What two ends agree on is a version that each of them has.
pub proof fn lemma_negotiated_is_common(a: Version, b: Version)
    ensures
        negotiated(a, b) matches Ok(v) ==> v.major == a.major && v.major == b.major && v.minor
            <= a.minor && v.minor <= b.minor && (v == a || v == b),
{
}

/// What an end says of itself first.
#[derive(Debug, Clone, PartialEq, Eq)]
pub struct Hello {
    pub version: Version,
    /// A name for logs. Nothing may depend on it.
    pub agent: String,
}

impl Hello {
    /// What this end says.
    pub fn local(agent: &str) -> (r: Self)
        ensures
            r.version == own_version(),
            r.agent@ == agent@,
    {
        Hello { version: protocol_version(), agent: agent.to_owned() }
    }
}

/// A number that is used once, as text.
#[derive(Debug, Clone, PartialEq, Eq)]
pub struct Nonce(pub String);

/// A proof that an end knows the secret, as text.
#[derive(Debug, Clone, PartialEq, Eq)]
pub struct Proof(pub String);

/// The first frame of a handshake.
#[derive(Debug, Clone, PartialEq, Eq)]
pub struct ClientHello {
    pub hello: Hello,
    pub nonce: Nonce,
}

/// The second frame of a handshake.
#[derive(Debug, Clone, PartialEq, Eq)]
pub struct ServerHello {
    pub hello: Hello,
    pub nonce: Nonce,
    pub proof: Proof,
}

/// The third frame of a handshake.
#[derive(Debug, Clone, PartialEq, Eq)]
pub struct ClientAuth {
    pub proof: Proof,
}

} // verus!
