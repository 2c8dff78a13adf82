//! The desktop shell's privacy settings: everything that could reach the
//! network starts off, and updates are never installed silently.
use vstd::prelude::*;

verus! {

#[derive(Debug, Clone, Copy, PartialEq, Eq, Structural)]
pub enum UpdatePolicy {
    Ask,
    ManualOnly,
}

#[derive(Debug, Clone, Copy, PartialEq, Eq, Structural)]
pub struct PrivacyState {
    /// No event collection is compiled into this shell.
    pub telemetry: bool,
    /// External URLs and sources require a deliberate action.
    pub external_sources: bool,
    /// Optional relay use is off until explicitly enabled.
    pub relays: bool,
    /// Discovery on the local network, independently switchable.
    pub lan_discovery: bool,
    /// Updates can never be installed silently.
    pub update_policy: UpdatePolicy,
}

impl Default for PrivacyState {
    fn default() -> (s: PrivacyState)
        ensures
            !s.telemetry,
            !s.external_sources,
            !s.relays,
            !s.lan_discovery,
            s.update_policy == UpdatePolicy::ManualOnly,
    {
        PrivacyState {
            telemetry: false,
            external_sources: false,
            relays: false,
            lan_discovery: false,
            update_policy: UpdatePolicy::ManualOnly,
        }
    }
}

/// The byte that stands for a flag.
pub open spec fn flag_byte(b: bool) -> u8 {
    if b {
        1
    } else {
        0
    }
}

/// The stored form: a version byte, three flags and the update policy.
/// Telemetry is not stored.
pub open spec fn privacy_bytes(s: PrivacyState) -> Seq<u8> {
    seq![
        1u8,
        flag_byte(s.external_sources),
        flag_byte(s.relays),
        flag_byte(s.lan_discovery),
        match s.update_policy {
            UpdatePolicy::ManualOnly => 1u8,
            UpdatePolicy::Ask => 2u8,
        },
    ]
}

/// Bytes that decode: version one, three flags of zero or one, and a known
/// update policy.
pub open spec fn privacy_bytes_valid(b: Seq<u8>) -> bool {
    &&& b.len() == 5
    &&& b[0] == 1
    &&& b[1] <= 1
    &&& b[2] <= 1
    &&& b[3] <= 1
    &&& (b[4] == 1 || b[4] == 2)
}

pub fn encode_privacy_settings(settings: PrivacyState) -> (b: [u8; 5])
    ensures
        b@ == privacy_bytes(settings),
{
    let b: [u8; 5] = [
        1,
        if settings.external_sources {
            1
        } else {
            0
        },
        if settings.relays {
            1
        } else {
            0
        },
        if settings.lan_discovery {
            1
        } else {
            0
        },
        match settings.update_policy {
            UpdatePolicy::ManualOnly => 1,
            UpdatePolicy::Ask => 2,
        },
    ];
    assert(b@ =~= privacy_bytes(settings));
    b
}

pub fn decode_privacy_settings(bytes: &[u8]) -> (r: Option<PrivacyState>)
    ensures
        r is Some <==> privacy_bytes_valid(bytes@),
        r matches Some(s) ==> !s.telemetry && s.external_sources == (bytes@[1] == 1) && s.relays
            == (bytes@[2] == 1) && s.lan_discovery == (bytes@[3] == 1) && s.update_policy == (
        if bytes@[4] == 1 {
            UpdatePolicy::ManualOnly
        } else {
            UpdatePolicy::Ask
        }),
{
    if bytes.len() != 5 || bytes[0] != 1 || bytes[1] > 1 || bytes[2] > 1 || bytes[3] > 1 {
        return None;
    }
    let update_policy = match bytes[4] {
        1 => UpdatePolicy::ManualOnly,
        2 => UpdatePolicy::Ask,
        _ => {
            return None;
        },
    };
    Some(
        PrivacyState {
            telemetry: false,
            external_sources: bytes[1] == 1,
            relays: bytes[2] == 1,
            lan_discovery: bytes[3] == 1,
            update_policy,
        },
    )
}

/// Law: stored settings read back as they were written, except telemetry,
/// which is never stored and always reads back off.
pub proof fn lemma_privacy_round_trip(s: PrivacyState)
    ensures
        privacy_bytes_valid(privacy_bytes(s)),
        privacy_bytes(s)[1] == 1 <==> s.external_sources,
        privacy_bytes(s)[2] == 1 <==> s.relays,
        privacy_bytes(s)[3] == 1 <==> s.lan_discovery,
        (privacy_bytes(s)[4] == 1) == (s.update_policy == UpdatePolicy::ManualOnly),
{
}

} // verus!
