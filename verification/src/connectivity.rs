//! Saved peers, the owner's connection policy, and shareable connection
//! cards. Everything here is plain local state the owner edits; none of it
//! is a trust root. A saved endpoint is a dial hint, a card's DID is the
//! identity to follow once its signed profile has actually been received.
//!
//! Whether a text is a did:mini identifier is the did:mini parser's
//! verdict, which the caller hands in (see `crate::did`); a peer or card
//! DID the parser refused, or did not check, is refused here, and what is
//! kept is the parser's canonical text.
use crate::did::{verdict_in, DidVerdicts};
use crate::network_session::{endpoint_error, validate_endpoint, SessionLength, MAX_SESSION_PEERS};
use crate::records::{
    lemma_decimal_digits, lemma_lines_cons, lemma_parse_decimal, lemma_split_cons, lemma_split_none,
    find_char, line_ranges, lines, parse_unsigned, piece, read_unsigned, split_on, split_ranges, strip_cr,
    sub_chars,
};
use crate::text::{chars_of, equals, push_chars, push_decimal, string_of, trim, trim_bounds, decimal};
use vstd::prelude::*;
use vstd::string::StringExecFns;
use vstd::utf8::encode_utf8;

verus! {

/// The port a new installation listens on.
pub const DEFAULT_PORT: u16 = 46000;

/// The longest peer name, in bytes.
pub const MAX_LABEL_BYTES: usize = 64;

/// RFC 6598 shared address space, 100.64.0.0/10: carrier-grade NAT.
pub open spec fn cgnat_octets(o: Seq<u8>) -> bool {
    o[0] == 100 && 64 <= o[1] <= 127
}

/// An external IPv4 address a router reports is worth showing to peers
/// only when it is none of: unspecified, private (RFC 1918), loopback,
/// link-local, or carrier-grade NAT.
pub open spec fn reachable_octets(o: Seq<u8>) -> bool {
    &&& !(o[0] == 0 && o[1] == 0 && o[2] == 0 && o[3] == 0)
    &&& !(o[0] == 10 || (o[0] == 172 && 16 <= o[1] <= 31) || (o[0] == 192 && o[1] == 168))
    &&& o[0] != 127
    &&& !(o[0] == 169 && o[1] == 254)
    &&& !cgnat_octets(o)
}

/// Whether an IPv4 address, given by its octets, is in the carrier-grade
/// NAT range.
pub fn is_cgnat(octets: [u8; 4]) -> (b: bool)
    ensures
        b == cgnat_octets(octets@),
{
    octets[0] == 100 && 64 <= octets[1] && octets[1] <= 127
}

/// Whether the external address a router reported can be handed to peers
/// as this machine's public address.
pub fn is_publicly_reachable(octets: [u8; 4]) -> (b: bool)
    ensures
        b == reachable_octets(octets@),
{
    let unspecified = octets[0] == 0 && octets[1] == 0 && octets[2] == 0 && octets[3] == 0;
    let private = octets[0] == 10 || (octets[0] == 172 && 16 <= octets[1] && octets[1] <= 31) || (
    octets[0] == 192 && octets[1] == 168);
    let loopback = octets[0] == 127;
    let link_local = octets[0] == 169 && octets[1] == 254;
    !unspecified && !private && !loopback && !link_local && !is_cgnat(octets)
}

/// One peer the owner chose to keep exchanging with.
#[derive(Debug, Clone, PartialEq, Eq)]
pub struct PeerEntry {
    /// Owner-chosen name for the endpoint; not the peer's claimed name.
    pub label: String,
    /// `host:port` or `[v6]:port`.
    pub endpoint: String,
    /// The human DID the owner expects behind this endpoint, if a card
    /// carried one. Never treated as verified by itself.
    pub did: Option<String>,
}

/// A saved peer as text.
#[verifier::ext_equal]
pub struct PeerView {
    pub label: Seq<char>,
    pub endpoint: Seq<char>,
    pub did: Option<Seq<char>>,
}

/// The text of an optional string.
pub open spec fn opt_text(s: Option<String>) -> Option<Seq<char>> {
    match s {
        Some(d) => Some(d@),
        None => None,
    }
}

/// The text of an optional string slice.
pub open spec fn opt_str_text(s: Option<&str>) -> Option<Seq<char>> {
    match s {
        Some(d) => Some(d@),
        None => None,
    }
}

impl View for PeerEntry {
    type V = PeerView;

    open spec fn view(&self) -> PeerView {
        PeerView { label: self.label@, endpoint: self.endpoint@, did: opt_text(self.did) }
    }
}

/// The text of each saved peer.
pub open spec fn peer_views(v: Seq<PeerEntry>) -> Seq<PeerView> {
    Seq::new(v.len(), |i: int| v[i]@)
}

/// Persisted connection preferences. Every network-starting flag defaults
/// to off; the owner enables each one deliberately.
#[derive(Debug, Clone, PartialEq, Eq)]
pub struct ConnectionSettings {
    pub listen_port: u16,
    pub session_length: SessionLength,
    /// Start a session with the saved peers when Mininet launches.
    pub session_on_launch: bool,
    /// Accept incoming connections when Mininet launches.
    pub host_on_launch: bool,
    /// With `host_on_launch`, also ask the router to forward the port.
    pub router_mapping_on_launch: bool,
    /// Sessions also exchange the owner's private conversation routes.
    pub include_private: bool,
    /// Micro-MINI per MB this device asks for what it serves.
    pub rate_micro_per_mb: u64,
    /// The most this device agrees to pay per MB it receives.
    pub max_pay_micro_per_mb: u64,
    /// Creator share of media bytes, basis points (0..=10000).
    pub creator_bps: u16,
    pub peers: Vec<PeerEntry>,
}

/// Connection settings as plain values.
#[verifier::ext_equal]
pub struct SettingsView {
    pub listen_port: u16,
    pub session_length: SessionLength,
    pub session_on_launch: bool,
    pub host_on_launch: bool,
    pub router_mapping_on_launch: bool,
    pub include_private: bool,
    pub rate_micro_per_mb: u64,
    pub max_pay_micro_per_mb: u64,
    pub creator_bps: u16,
    pub peers: Seq<PeerView>,
}

impl View for ConnectionSettings {
    type V = SettingsView;

    open spec fn view(&self) -> SettingsView {
        SettingsView {
            listen_port: self.listen_port,
            session_length: self.session_length,
            session_on_launch: self.session_on_launch,
            host_on_launch: self.host_on_launch,
            router_mapping_on_launch: self.router_mapping_on_launch,
            include_private: self.include_private,
            rate_micro_per_mb: self.rate_micro_per_mb,
            max_pay_micro_per_mb: self.max_pay_micro_per_mb,
            creator_bps: self.creator_bps,
            peers: peer_views(self.peers@),
        }
    }
}

/// The settings of a new installation: nothing starts on its own.
pub open spec fn default_settings() -> SettingsView {
    SettingsView {
        listen_port: DEFAULT_PORT,
        session_length: SessionLength::Short,
        session_on_launch: false,
        host_on_launch: false,
        router_mapping_on_launch: false,
        include_private: false,
        rate_micro_per_mb: 10,
        max_pay_micro_per_mb: 50,
        creator_bps: 3000,
        peers: Seq::empty(),
    }
}

impl Default for ConnectionSettings {
    fn default() -> (s: Self)
        ensures
            s@ == default_settings(),
    {
        let s = ConnectionSettings {
            listen_port: DEFAULT_PORT,
            session_length: SessionLength::Short,
            session_on_launch: false,
            host_on_launch: false,
            router_mapping_on_launch: false,
            include_private: false,
            rate_micro_per_mb: 10,
            max_pay_micro_per_mb: 50,
            creator_bps: 3000,
            peers: Vec::new(),
        };
        assert(s@ =~= default_settings());
        s
    }
}

/// A control character, as `char::is_control` tests it.
pub open spec fn is_control(c: char) -> bool {
    (c as u32) <= 0x1f || (0x7f <= (c as u32) && (c as u32) <= 0x9f)
}

/// `s` without its control characters.
pub open spec fn without_controls(s: Seq<char>) -> Seq<char>
    decreases s.len(),
{
    if s.len() == 0 {
        Seq::empty()
    } else if is_control(s.last()) {
        without_controls(s.drop_last())
    } else {
        without_controls(s.drop_last()).push(s.last())
    }
}

/// A peer name as the owner typed it, cleaned: trimmed, control
/// characters dropped, not empty and at most 64 bytes.
pub open spec fn label_outcome(label: Seq<char>) -> Result<Seq<char>, Seq<char>> {
    let c = without_controls(trim(label));
    if c.len() == 0 {
        Err("Give the peer a short name."@)
    } else if encode_utf8(c).len() > MAX_LABEL_BYTES {
        Err("Peer names are limited to 64 bytes."@)
    } else {
        Ok(c)
    }
}

/// The DID a peer entry keeps: the trimmed text, unless it is blank.
pub open spec fn did_field(did: Option<Seq<char>>) -> Option<Seq<char>> {
    match did {
        Some(d) => if trim(d).len() > 0 {
            Some(trim(d))
        } else {
            None
        },
        None => None,
    }
}

/// What a peer's DID becomes: nothing when none or only blank text came;
/// otherwise the parser's canonical text for the trimmed text, or a
/// refusal when the parser refused it or never saw it.
pub open spec fn did_choice(did: Option<Seq<char>>, vs: Seq<(Seq<char>, Result<Seq<char>, Seq<char>>)>) -> Result<Option<Seq<char>>, Seq<char>> {
    match did_field(did) {
        Some(t) => match verdict_in(vs, t) {
            Some(Ok(c)) => Ok(Some(c)),
            Some(Err(e)) => Err("The card's DID is malformed: "@ + e),
            None => Err("The card's DID is malformed."@),
        },
        None => Ok(None),
    }
}

/// Where the first peer with this endpoint stands, if any.
pub open spec fn find_endpoint(peers: Seq<PeerView>, endpoint: Seq<char>) -> Option<nat>
    decreases peers.len(),
{
    if peers.len() == 0 {
        None
    } else if peers[0].endpoint == endpoint {
        Some(0)
    } else {
        match find_endpoint(peers.drop_first(), endpoint) {
            Some(i) => Some(i + 1),
            None => None,
        }
    }
}

/// What saving a peer does: a known endpoint is renamed (and given the
/// DID, if one came), a new one is added at the end while there is room.
/// The flag says whether an entry was added.
pub open spec fn upsert_outcome(
    peers: Seq<PeerView>,
    label: Seq<char>,
    endpoint: Seq<char>,
    did: Option<Seq<char>>,
    vs: Seq<(Seq<char>, Result<Seq<char>, Seq<char>>)>,
) -> Result<(Seq<PeerView>, bool), Seq<char>> {
    match label_outcome(label) {
        Err(m) => Err(m),
        Ok(l) => match endpoint_error(endpoint) {
            Some(m) => Err(m),
            None => {
                let e = trim(endpoint);
                match did_choice(did, vs) {
                Err(m) => Err(m),
                Ok(d) => match find_endpoint(peers, e) {
                    Some(i) => Ok(
                        (
                            peers.update(
                                i as int,
                                PeerView {
                                    label: l,
                                    endpoint: peers[i as int].endpoint,
                                    did: if d is Some {
                                        d
                                    } else {
                                        peers[i as int].did
                                    },
                                },
                            ),
                            false,
                        ),
                    ),
                    None => if peers.len() >= MAX_SESSION_PEERS {
                        Err("At most 16 peers can be saved. Remove one first."@)
                    } else {
                        Ok((peers.push(PeerView { label: l, endpoint: e, did: d }), true))
                    },
                },
                }
            },
        },
    }
}

/// The peers whose endpoint is not `endpoint`, in order.
pub open spec fn without_endpoint(peers: Seq<PeerView>, endpoint: Seq<char>) -> Seq<PeerView>
    decreases peers.len(),
{
    if peers.len() == 0 {
        Seq::empty()
    } else if peers.last().endpoint == endpoint {
        without_endpoint(peers.drop_last(), endpoint)
    } else {
        without_endpoint(peers.drop_last(), endpoint).push(peers.last())
    }
}

/// One saved line: a key, a tab, the value and a line feed.
pub open spec fn line_of(key: Seq<char>, value: Seq<char>) -> Seq<char> {
    key + seq!['\t'] + value + seq!['\n']
}

/// A flag as saved: `1` or `0`.
pub open spec fn flag_text(b: bool) -> Seq<char> {
    if b {
        seq!['1']
    } else {
        seq!['0']
    }
}

/// A peer's DID as saved: the text, or nothing.
pub open spec fn did_text(did: Option<Seq<char>>) -> Seq<char> {
    match did {
        Some(d) => d,
        None => Seq::empty(),
    }
}

/// A saved peer line: label, endpoint and DID after the key, tab-separated.
pub open spec fn peer_line(p: PeerView) -> Seq<char> {
    "peer"@ + seq!['\t'] + p.label + seq!['\t'] + p.endpoint + seq!['\t'] + did_text(p.did)
        + seq!['\n']
}

/// The saved lines of the peers, in order.
pub open spec fn peer_lines(ps: Seq<PeerView>) -> Seq<char>
    decreases ps.len(),
{
    if ps.len() == 0 {
        Seq::empty()
    } else {
        peer_line(ps[0]) + peer_lines(ps.drop_first())
    }
}

/// The first line of saved settings.
pub open spec fn settings_header() -> Seq<char> {
    "mininet-connections/1"@
}

/// The saved form of settings: a header line, one line per setting, then
/// one line per peer.
pub open spec fn settings_text(s: SettingsView) -> Seq<char> {
    settings_header() + seq!['\n'] + line_of("port"@, decimal(s.listen_port as nat)) + line_of(
        "session_length"@,
        decimal(s.session_length.code_of() as nat),
    ) + line_of("session_on_launch"@, flag_text(s.session_on_launch)) + line_of(
        "host_on_launch"@,
        flag_text(s.host_on_launch),
    ) + line_of("router_mapping_on_launch"@, flag_text(s.router_mapping_on_launch)) + line_of(
        "include_private"@,
        flag_text(s.include_private),
    ) + line_of("rate_micro_per_mb"@, decimal(s.rate_micro_per_mb as nat)) + line_of(
        "max_pay_micro_per_mb"@,
        decimal(s.max_pay_micro_per_mb as nat),
    ) + line_of("creator_bps"@, decimal(s.creator_bps as nat)) + peer_lines(s.peers)
}

/// Appends a key, a tab, the decimal digits of `value` and a line feed.
fn push_number_line(out: &mut String, key: &str, value: u128)
    ensures
        final(out)@ == old(out)@ + line_of(key@, decimal(value as nat)),
{
    out.append(key);
    push_chars(out, &['\t']);
    push_decimal(out, value);
    push_chars(out, &['\n']);
    assert(out@ =~= old(out)@ + line_of(key@, decimal(value as nat)));
}

/// Appends a key, a tab, `1` or `0` and a line feed.
fn push_flag_line(out: &mut String, key: &str, value: bool)
    ensures
        final(out)@ == old(out)@ + line_of(key@, flag_text(value)),
{
    out.append(key);
    if value {
        push_chars(out, &['\t', '1', '\n']);
    } else {
        push_chars(out, &['\t', '0', '\n']);
    }
    assert(out@ =~= old(out)@ + line_of(key@, flag_text(value)));
}

proof fn lemma_peer_lines_push(ps: Seq<PeerView>, p: PeerView)
    ensures
        peer_lines(ps.push(p)) == peer_lines(ps) + peer_line(p),
    decreases ps.len(),
{
    let q = ps.push(p);
    if ps.len() == 0 {
        assert(q[0] == p);
        assert(q.drop_first() =~= Seq::<PeerView>::empty());
        assert(peer_lines(q.drop_first()) == Seq::<char>::empty());
        assert(peer_lines(ps) == Seq::<char>::empty());
        assert(peer_lines(q) =~= peer_lines(ps) + peer_line(p));
    } else {
        lemma_peer_lines_push(ps.drop_first(), p);
        assert(q[0] == ps[0]);
        assert(q.drop_first() =~= ps.drop_first().push(p));
        assert(peer_lines(q) == peer_line(ps[0]) + peer_lines(ps.drop_first().push(p)));
        assert(peer_lines(q) =~= peer_lines(ps) + peer_line(p));
    }
}

/// The text `{:?}` gives for a string: the characters in double quotes,
/// with escapes.
pub uninterp spec fn debug_text(s: Seq<char>) -> Seq<char>;

/// Formats a string with `format!("{:?}")`, the `Debug` impl of `str`,
/// whose output depends on the text alone.
#[verifier::external_body]
fn debug_quoted(value: &str) -> (q: String)
    ensures
        q@ == debug_text(value@),
{
    format!("{:?}", value)
}

/// A saved flag: `1` is on, `0` is off, nothing else is read.
pub open spec fn flag_value(v: Seq<char>) -> Option<bool> {
    if v == seq!['1'] {
        Some(true)
    } else if v == seq!['0'] {
        Some(false)
    } else {
        None
    }
}

/// The refusal of a malformed flag.
pub open spec fn flag_error(v: Seq<char>) -> Seq<char> {
    "invalid flag value "@ + debug_text(v)
}

/// What one non-blank saved line does to the settings read so far: the
/// key before the first tab picks the setting, the pieces after it are
/// its values (missing ones read as empty).
pub open spec fn apply_line(s: SettingsView, line: Seq<char>, vs: Seq<(Seq<char>, Result<Seq<char>, Seq<char>>)>) -> Result<SettingsView, Seq<char>> {
    let parts = split_on(line, '\t');
    let key = parts[0];
    let v1 = piece(parts, 1);
    if key == "port"@ {
        match parse_unsigned(v1, 65535) {
            Some(p) => if p != 0 {
                Ok(SettingsView { listen_port: p as u16, ..s })
            } else {
                Err("invalid listen port"@)
            },
            None => Err("invalid listen port"@),
        }
    } else if key == "session_length"@ {
        match parse_unsigned(v1, 255) {
            Some(c) => match SessionLength::of_code(c as u8) {
                Some(l) => Ok(SettingsView { session_length: l, ..s }),
                None => Err("invalid session length"@),
            },
            None => Err("invalid session length"@),
        }
    } else if key == "session_on_launch"@ {
        match flag_value(v1) {
            Some(b) => Ok(SettingsView { session_on_launch: b, ..s }),
            None => Err(flag_error(v1)),
        }
    } else if key == "host_on_launch"@ {
        match flag_value(v1) {
            Some(b) => Ok(SettingsView { host_on_launch: b, ..s }),
            None => Err(flag_error(v1)),
        }
    } else if key == "router_mapping_on_launch"@ {
        match flag_value(v1) {
            Some(b) => Ok(SettingsView { router_mapping_on_launch: b, ..s }),
            None => Err(flag_error(v1)),
        }
    } else if key == "include_private"@ {
        match flag_value(v1) {
            Some(b) => Ok(SettingsView { include_private: b, ..s }),
            None => Err(flag_error(v1)),
        }
    } else if key == "rate_micro_per_mb"@ {
        match parse_unsigned(v1, u64::MAX as nat) {
            Some(r) => Ok(SettingsView { rate_micro_per_mb: r as u64, ..s }),
            None => Err("invalid rate"@),
        }
    } else if key == "max_pay_micro_per_mb"@ {
        match parse_unsigned(v1, u64::MAX as nat) {
            Some(r) => Ok(SettingsView { max_pay_micro_per_mb: r as u64, ..s }),
            None => Err("invalid ceiling"@),
        }
    } else if key == "creator_bps"@ {
        match parse_unsigned(v1, 65535) {
            Some(b) => if b <= 10_000 {
                Ok(SettingsView { creator_bps: b as u16, ..s })
            } else {
                Err("invalid creator share"@)
            },
            None => Err("invalid creator share"@),
        }
    } else if key == "peer"@ {
        match upsert_outcome(s.peers, v1, piece(parts, 2), Some(piece(parts, 3)), vs) {
            Ok((peers, _)) => Ok(SettingsView { peers, ..s }),
            Err(m) => Err(m),
        }
    } else {
        Err("unknown connection setting "@ + debug_text(key))
    }
}

/// Applies each non-blank line in turn, stopping at the first refusal.
pub open spec fn apply_lines(s: SettingsView, ls: Seq<Seq<char>>, vs: Seq<(Seq<char>, Result<Seq<char>, Seq<char>>)>) -> Result<SettingsView, Seq<char>>
    decreases ls.len(),
{
    if ls.len() == 0 {
        Ok(s)
    } else if trim(ls[0]).len() == 0 {
        apply_lines(s, ls.drop_first(), vs)
    } else {
        match apply_line(s, ls[0], vs) {
            Err(m) => Err(m),
            Ok(next) => apply_lines(next, ls.drop_first(), vs),
        }
    }
}

/// What reading saved settings gives: the defaults with each line
/// applied, or the first refusal; an unknown header refuses everything.
pub open spec fn settings_decoding(text: Seq<char>, vs: Seq<(Seq<char>, Result<Seq<char>, Seq<char>>)>) -> Result<SettingsView, Seq<char>> {
    let ls = lines(text);
    if ls.len() == 0 || trim(ls[0]) != settings_header() {
        Err("unrecognized connection settings header"@)
    } else {
        apply_lines(default_settings(), ls.skip(1), vs)
    }
}

/// Where the `k`-th piece of a split stands, or an empty place at `a`.
fn piece_range(pieces: &Vec<(usize, usize)>, k: usize, a: usize) -> (r: (usize, usize))
    ensures
        k < pieces@.len() ==> r == pieces@[k as int],
        k >= pieces@.len() ==> r == (a, a),
{
    if k < pieces.len() {
        pieces[k]
    } else {
        (a, a)
    }
}

/// Cleans a peer name.
fn clean_label(label: &str) -> (r: Result<String, String>)
    ensures
        match label_outcome(label@) {
            Ok(c) => r matches Ok(s) && s@ == c,
            Err(m) => r matches Err(e) && e@ == m,
        },
{
    let chars = chars_of(label);
    let (a, b) = trim_bounds(&chars);
    let t = sub_chars(&chars, a, b);
    let mut kept: Vec<char> = Vec::new();
    let mut i: usize = 0;
    assert(t@.take(0) =~= Seq::<char>::empty());
    while i < t.len()
        invariant
            i <= t@.len(),
            kept@ == without_controls(t@.take(i as int)),
        decreases t@.len() - i,
    {
        let c = t[i];
        let u = c as u32;
        proof {
            assert(t@.take(i + 1).drop_last() =~= t@.take(i as int));
            assert(t@.take(i + 1).last() == c);
        }
        if !(u <= 0x1f || (0x7f <= u && u <= 0x9f)) {
            kept.push(c);
        }
        i = i + 1;
    }
    assert(t@.take(i as int) =~= t@);
    let s = string_of(kept.as_slice());
    if kept.len() == 0 {
        return Err(String::from_str("Give the peer a short name."));
    }
    if s.as_str().as_bytes().len() > MAX_LABEL_BYTES {
        return Err(String::from_str("Peer names are limited to 64 bytes."));
    }
    Ok(s)
}

/// A copy of a peer entry.
fn copy_peer(p: &PeerEntry) -> (q: PeerEntry)
    ensures
        q@ == p@,
{
    PeerEntry {
        label: p.label.clone(),
        endpoint: p.endpoint.clone(),
        did: match &p.did {
            Some(d) => Some(d.clone()),
            None => None,
        },
    }
}

impl ConnectionSettings {
    /// Add or update a saved peer keyed by endpoint, its DID (if any text
    /// came) judged by the parser's `verdicts`. Returns whether a new entry
    /// was created.
    pub fn upsert_peer(
        &mut self,
        label: &str,
        endpoint: &str,
        did: Option<&str>,
        verdicts: &DidVerdicts,
    ) -> (r: Result<bool, String>)
        ensures
            match upsert_outcome(old(self)@.peers, label@, endpoint@, opt_str_text(did), verdicts@) {
                Err(m) => r matches Err(e) && e@ == m && final(self)@ == old(self)@,
                Ok((peers, added)) => r == Ok::<bool, String>(added) && final(self)@ == (
                SettingsView { peers, ..old(self)@ }),
            },
    {
        let l = clean_label(label)?;
        let e = validate_endpoint(endpoint)?;
        let d: Option<String> = match did {
            Some(text) => {
                let chars = chars_of(text);
                let (a, b) = trim_bounds(&chars);
                if a < b {
                    let t = string_of(sub_chars(&chars, a, b).as_slice());
                    match verdicts.lookup(&t) {
                        Some(Ok(c)) => Some(c),
                        Some(Err(e)) => {
                            let mut m = String::from_str("The card's DID is malformed: ");
                            m.append(e.as_str());
                            return Err(m);
                        },
                        None => {
                            return Err(String::from_str("The card's DID is malformed."));
                        },
                    }
                } else {
                    None
                }
            },
            None => None,
        };
        assert(did_choice(opt_str_text(did), verdicts@) == Ok::<Option<Seq<char>>, Seq<char>>(
            opt_text(d),
        ));
        let ghost views = old(self)@.peers;
        let mut i: usize = 0;
        while i < self.peers.len()
            invariant
                i <= self.peers@.len(),
                self@ == old(self)@,
                views == peer_views(self.peers@),
                e@ == trim(endpoint@),
                label_outcome(label@) == Ok::<Seq<char>, Seq<char>>(l@),
                endpoint_error(endpoint@) is None,
                did_choice(opt_str_text(did), verdicts@) == Ok::<Option<Seq<char>>, Seq<char>>(
                    opt_text(d),
                ),
                forall|j: int| 0 <= j < i ==> (#[trigger] self.peers@[j]).endpoint@ != e@,
            decreases self.peers@.len() - i,
        {
            if self.peers[i].endpoint == e {
                proof {
                    lemma_find_endpoint_at(views, e@, i as int);
                }
                let kept_did = match d {
                    Some(x) => Some(x),
                    None => match &self.peers[i].did {
                        Some(x) => Some(x.clone()),
                        None => None,
                    },
                };
                let entry = PeerEntry {
                    label: l,
                    endpoint: self.peers[i].endpoint.clone(),
                    did: kept_did,
                };
                let ghost before = self.peers@;
                let ghost entry_view = entry@;
                self.peers.set(i, entry);
                proof {
                    assert(self.peers@ == before.update(i as int, self.peers@[i as int]));
                    assert(peer_views(self.peers@) =~= views.update(
                        i as int,
                        PeerView {
                            label: label_outcome(label@)->Ok_0,
                            endpoint: views[i as int].endpoint,
                            did: if opt_text(d) is Some {
                                opt_text(d)
                            } else {
                                views[i as int].did
                            },
                        },
                    ));
                }
                return Ok(false);
            }
            i = i + 1;
        }
        proof {
            lemma_find_endpoint_at(views, e@, views.len() as int);
        }
        if self.peers.len() >= MAX_SESSION_PEERS {
            return Err(String::from_str("At most 16 peers can be saved. Remove one first."));
        }
        self.peers.push(PeerEntry { label: l, endpoint: e, did: d });
        proof {
            assert(peer_views(self.peers@) =~= views.push(
                PeerView {
                    label: label_outcome(label@)->Ok_0,
                    endpoint: trim(endpoint@),
                    did: opt_text(d),
                },
            ));
        }
        Ok(true)
    }

    /// Forget every saved peer with exactly this endpoint. Returns whether
    /// one was saved.
    pub fn remove_peer(&mut self, endpoint: &str) -> (removed: bool)
        ensures
            final(self)@ == (SettingsView {
                peers: without_endpoint(old(self)@.peers, endpoint@),
                ..old(self)@
            }),
            removed == (without_endpoint(old(self)@.peers, endpoint@).len() != old(
                self,
            )@.peers.len()),
    {
        let target = String::from_str(endpoint);
        let ghost views = old(self)@.peers;
        let mut kept: Vec<PeerEntry> = Vec::new();
        let mut i: usize = 0;
        assert(views.take(0) =~= Seq::<PeerView>::empty());
        while i < self.peers.len()
            invariant
                i <= self.peers@.len(),
                views == peer_views(self.peers@),
                target@ == endpoint@,
                peer_views(kept@) == without_endpoint(views.take(i as int), endpoint@),
            decreases self.peers@.len() - i,
        {
            proof {
                assert(views.take(i + 1).drop_last() =~= views.take(i as int));
                assert(views.take(i + 1).last() == self.peers@[i as int]@);
            }
            if self.peers[i].endpoint != target {
                let ghost prev = kept@;
                kept.push(copy_peer(&self.peers[i]));
                assert(peer_views(kept@) =~= peer_views(prev).push(self.peers@[i as int]@));
            }
            i = i + 1;
        }
        assert(views.take(i as int) =~= views);
        let before = self.peers.len();
        self.peers = kept;
        assert(self@ =~= SettingsView { peers: without_endpoint(views, endpoint@), ..old(self)@ });
        before != self.peers.len()
    }

    /// The saved form of the settings.
    pub fn encode(&self) -> (text: String)
        ensures
            text@ == settings_text(self@),
    {
        let mut out = String::from_str("mininet-connections/1");
        push_chars(&mut out, &['\n']);
        push_number_line(&mut out, "port", self.listen_port as u128);
        push_number_line(&mut out, "session_length", self.session_length.code() as u128);
        push_flag_line(&mut out, "session_on_launch", self.session_on_launch);
        push_flag_line(&mut out, "host_on_launch", self.host_on_launch);
        push_flag_line(&mut out, "router_mapping_on_launch", self.router_mapping_on_launch);
        push_flag_line(&mut out, "include_private", self.include_private);
        push_number_line(&mut out, "rate_micro_per_mb", self.rate_micro_per_mb as u128);
        push_number_line(&mut out, "max_pay_micro_per_mb", self.max_pay_micro_per_mb as u128);
        push_number_line(&mut out, "creator_bps", self.creator_bps as u128);
        let ghost head = out@;
        let ghost views = self@.peers;
        let mut i: usize = 0;
        assert(views.take(0) =~= Seq::<PeerView>::empty());
        while i < self.peers.len()
            invariant
                i <= self.peers@.len(),
                views == peer_views(self.peers@),
                out@ == head + peer_lines(views.take(i as int)),
            decreases self.peers@.len() - i,
        {
            let p = &self.peers[i];
            out.append("peer");
            push_chars(&mut out, &['\t']);
            out.append(p.label.as_str());
            push_chars(&mut out, &['\t']);
            out.append(p.endpoint.as_str());
            push_chars(&mut out, &['\t']);
            match &p.did {
                Some(d) => out.append(d.as_str()),
                None => {},
            }
            push_chars(&mut out, &['\n']);
            proof {
                lemma_peer_lines_push(views.take(i as int), views[i as int]);
                assert(views.take(i + 1) =~= views.take(i as int).push(views[i as int]));
                assert(out@ =~= head + peer_lines(views.take(i + 1)));
            }
            i = i + 1;
        }
        assert(views.take(i as int) =~= views);
        out
    }

    /// Applies one non-blank saved line, `chars[a..b]`.
    #[verifier::rlimit(40)]
    fn apply_saved_line(&mut self, chars: &Vec<char>, a: usize, b: usize, verdicts: &DidVerdicts) -> (r: Result<(), String>)
        requires
            a <= b <= chars@.len(),
        ensures
            match apply_line(old(self)@, chars@.subrange(a as int, b as int), verdicts@) {
                Ok(next) => r is Ok && final(self)@ == next,
                Err(m) => r matches Err(e) && e@ == m,
            },
    {
        let ghost line = chars@.subrange(a as int, b as int);
        let ghost parts = split_on(line, '\t');
        let pieces = split_ranges(chars, a, b, '\t');
        proof {
            crate::records::lemma_find_char(line, '\t');
            assert(parts.len() >= 1);
        }
        let key = sub_chars(chars, pieces[0].0, pieces[0].1);
        let (p1, q1) = piece_range(&pieces, 1, a);
        proof {
            assert(chars@.subrange(p1 as int, q1 as int) == piece(parts, 1)) by {
                if 1 >= pieces@.len() {
                    assert(chars@.subrange(a as int, a as int) =~= Seq::<char>::empty());
                }
            }
        }
        let ghost v1 = piece(parts, 1);
        if equals(&key, chars_of("port").as_slice()) {
            match read_unsigned(chars, p1, q1, 65535) {
                Some(p) => {
                    if p != 0 {
                        self.listen_port = p as u16;
                        assert(self@ =~= (SettingsView { listen_port: p as u16, ..old(self)@ }));
                        return Ok(());
                    }
                    return Err(String::from_str("invalid listen port"));
                },
                None => {
                    return Err(String::from_str("invalid listen port"));
                },
            }
        }
        if equals(&key, chars_of("session_length").as_slice()) {
            match read_unsigned(chars, p1, q1, 255) {
                Some(c) => match SessionLength::from_code(c as u8) {
                    Some(l) => {
                        self.session_length = l;
                        assert(self@ =~= (SettingsView { session_length: l, ..old(self)@ }));
                        return Ok(());
                    },
                    None => {
                        return Err(String::from_str("invalid session length"));
                    },
                },
                None => {
                    return Err(String::from_str("invalid session length"));
                },
            }
        }
        let is_session = equals(&key, chars_of("session_on_launch").as_slice());
        let is_host = equals(&key, chars_of("host_on_launch").as_slice());
        let is_router = equals(&key, chars_of("router_mapping_on_launch").as_slice());
        let is_private = equals(&key, chars_of("include_private").as_slice());
        if is_session || is_host || is_router || is_private {
            let value = sub_chars(chars, p1, q1);
            let flag = if equals(&value, &['1']) {
                Some(true)
            } else if equals(&value, &['0']) {
                Some(false)
            } else {
                None
            };
            proof {
                assert(seq!['1'] == ['1']@);
                assert(seq!['0'] == ['0']@);
            }
            match flag {
                Some(on) => {
                    if is_session {
                        self.session_on_launch = on;
                    } else if is_host {
                        self.host_on_launch = on;
                    } else if is_router {
                        self.router_mapping_on_launch = on;
                    } else {
                        self.include_private = on;
                    }
                    proof {
                        if is_session {
                            assert(self@ =~= (SettingsView { session_on_launch: on, ..old(self)@ }));
                        } else if is_host {
                            assert(self@ =~= (SettingsView { host_on_launch: on, ..old(self)@ }));
                        } else if is_router {
                            assert(self@ =~= (SettingsView {
                                router_mapping_on_launch: on,
                                ..old(self)@
                            }));
                        } else {
                            assert(self@ =~= (SettingsView { include_private: on, ..old(self)@ }));
                        }
                    }
                    return Ok(());
                },
                None => {
                    let mut m = String::from_str("invalid flag value ");
                    let text = string_of(value.as_slice());
                    let q = debug_quoted(text.as_str());
                    m.append(q.as_str());
                    return Err(m);
                },
            }
        }
        if equals(&key, chars_of("rate_micro_per_mb").as_slice()) {
            match read_unsigned(chars, p1, q1, u64::MAX) {
                Some(r) => {
                    self.rate_micro_per_mb = r;
                    assert(self@ =~= (SettingsView { rate_micro_per_mb: r, ..old(self)@ }));
                    return Ok(());
                },
                None => {
                    return Err(String::from_str("invalid rate"));
                },
            }
        }
        if equals(&key, chars_of("max_pay_micro_per_mb").as_slice()) {
            match read_unsigned(chars, p1, q1, u64::MAX) {
                Some(r) => {
                    self.max_pay_micro_per_mb = r;
                    assert(self@ =~= (SettingsView { max_pay_micro_per_mb: r, ..old(self)@ }));
                    return Ok(());
                },
                None => {
                    return Err(String::from_str("invalid ceiling"));
                },
            }
        }
        if equals(&key, chars_of("creator_bps").as_slice()) {
            match read_unsigned(chars, p1, q1, 65535) {
                Some(v) => {
                    if v <= 10_000 {
                        self.creator_bps = v as u16;
                        assert(self@ =~= (SettingsView { creator_bps: v as u16, ..old(self)@ }));
                        return Ok(());
                    }
                    return Err(String::from_str("invalid creator share"));
                },
                None => {
                    return Err(String::from_str("invalid creator share"));
                },
            }
        }
        if equals(&key, chars_of("peer").as_slice()) {
            let (p2, q2) = piece_range(&pieces, 2, a);
            let (p3, q3) = piece_range(&pieces, 3, a);
            proof {
                assert(chars@.subrange(p2 as int, q2 as int) == piece(parts, 2)) by {
                    if 2 >= pieces@.len() {
                        assert(chars@.subrange(a as int, a as int) =~= Seq::<char>::empty());
                    }
                }
                assert(chars@.subrange(p3 as int, q3 as int) == piece(parts, 3)) by {
                    if 3 >= pieces@.len() {
                        assert(chars@.subrange(a as int, a as int) =~= Seq::<char>::empty());
                    }
                }
            }
            let label = string_of(sub_chars(chars, p1, q1).as_slice());
            let endpoint = string_of(sub_chars(chars, p2, q2).as_slice());
            let did = string_of(sub_chars(chars, p3, q3).as_slice());
            match self.upsert_peer(label.as_str(), endpoint.as_str(), Some(did.as_str()), verdicts) {
                Ok(_) => {
                    return Ok(());
                },
                Err(e) => {
                    return Err(e);
                },
            }
        }
        let mut m = String::from_str("unknown connection setting ");
        let text = string_of(key.as_slice());
        let q = debug_quoted(text.as_str());
        m.append(q.as_str());
        Err(m)
    }

    /// Read saved settings, peer DIDs judged by the parser's `verdicts`.
    /// Strict: an unknown header, a malformed flag or a bad peer line (a
    /// malformed DID among them) refuses the whole text rather than
    /// half-applying a policy.
    pub fn decode(text: &str, verdicts: &DidVerdicts) -> (r: Result<ConnectionSettings, String>)
        ensures
            match settings_decoding(text@, verdicts@) {
                Ok(s) => r matches Ok(settings) && settings@ == s,
                Err(m) => r matches Err(e) && e@ == m,
            },
    {
        let chars = chars_of(text);
        let ranges = line_ranges(&chars);
        let ghost ls = lines(chars@);
        if ranges.len() == 0 {
            return Err(String::from_str("unrecognized connection settings header"));
        }
        let first = sub_chars(&chars, ranges[0].0, ranges[0].1);
        let (a, b) = trim_bounds(&first);
        let head = sub_chars(&first, a, b);
        if !equals(&head, chars_of("mininet-connections/1").as_slice()) {
            return Err(String::from_str("unrecognized connection settings header"));
        }
        let mut settings = ConnectionSettings::default();
        let mut k: usize = 1;
        proof {
            assert(ls.skip(1).skip(0) =~= ls.skip(1));
        }
        while k < ranges.len()
            invariant
                1 <= k <= ranges@.len(),
                ranges@.len() == ls.len(),
                ls == lines(chars@),
                chars@ == text@,
                forall|j: int|
                    0 <= j < ranges@.len() ==> (#[trigger] ranges@[j]).0 <= ranges@[j].1
                        <= chars@.len() && chars@.subrange(ranges@[j].0 as int, ranges@[j].1 as int)
                        == ls[j],
                ls.len() > 0 && trim(ls[0]) == settings_header(),
                apply_lines(default_settings(), ls.skip(1), verdicts@) == apply_lines(
                    settings@,
                    ls.skip(k as int),
                    verdicts@,
                ),
            decreases ranges@.len() - k,
        {
            let (la, lb) = ranges[k];
            let ghost rest = ls.skip(k as int);
            proof {
                assert(ranges@[k as int].0 <= ranges@[k as int].1 <= chars@.len());
                assert(rest[0] == ls[k as int]);
                assert(rest.drop_first() =~= ls.skip(k + 1));
            }
            let line = sub_chars(&chars, la, lb);
            let (ta, tb) = trim_bounds(&line);
            if ta < tb {
                match settings.apply_saved_line(&chars, la, lb, verdicts) {
                    Ok(()) => {},
                    Err(e) => {
                        return Err(e);
                    },
                }
            }
            k = k + 1;
        }
        assert(ls.skip(k as int).len() == 0);
        Ok(settings)
    }

    /// The saved endpoints, in order.
    pub fn endpoints(&self) -> (v: Vec<String>)
        ensures
            v@.len() == self@.peers.len(),
            forall|i: int| 0 <= i < v@.len() ==> (#[trigger] v@[i])@ == self@.peers[i].endpoint,
    {
        let mut v: Vec<String> = Vec::new();
        let mut i: usize = 0;
        while i < self.peers.len()
            invariant
                i <= self.peers@.len(),
                v@.len() == i,
                forall|j: int| 0 <= j < i ==> (#[trigger] v@[j])@ == self.peers@[j].endpoint@,
            decreases self.peers@.len() - i,
        {
            v.push(self.peers[i].endpoint.clone());
            i = i + 1;
        }
        v
    }
}

/// A pasteable card another person uses to reach this instance. It carries a
/// dial hint and the owner's public identity; it is not a secret and grants
/// nothing by itself.
#[derive(Debug, Clone, PartialEq, Eq)]
pub struct ConnectionCard {
    pub endpoint: String,
    pub did: String,
    pub name: String,
}

/// A name as a card carries it: without semicolons and control characters.
pub open spec fn card_name(s: Seq<char>) -> Seq<char>
    decreases s.len(),
{
    if s.len() == 0 {
        Seq::empty()
    } else if s.last() == ';' || is_control(s.last()) {
        card_name(s.drop_last())
    } else {
        card_name(s.drop_last()).push(s.last())
    }
}

/// The text of a card.
pub open spec fn card_text(endpoint: Seq<char>, did: Seq<char>, name: Seq<char>) -> Seq<char> {
    "mininet-peer-v1;endpoint="@ + endpoint + ";did="@ + did + ";name="@ + card_name(name)
}

/// A card read so far: the endpoint, DID and name seen, if any.
pub struct CardFields {
    pub endpoint: Option<Seq<char>>,
    pub did: Option<Seq<char>>,
    pub name: Option<Seq<char>>,
}

/// What one `key=value` field of a card does: an endpoint is checked and
/// trimmed, a DID trimmed and judged by the parser (its canonical text
/// kept), a name cleaned like a peer name; a field without `=` or with another key refuses the card. A later
/// field of the same key replaces an earlier one.
pub open spec fn card_field(acc: CardFields, field: Seq<char>, vs: Seq<(Seq<char>, Result<Seq<char>, Seq<char>>)>) -> Result<CardFields, Seq<char>> {
    match find_char(field, '=') {
        None => Err("The connection card is malformed."@),
        Some(i) => {
            let key = field.take(i as int);
            let value = field.skip(i + 1 as int);
            if key == "endpoint"@ {
                match endpoint_error(value) {
                    Some(m) => Err(m),
                    None => Ok(CardFields { endpoint: Some(trim(value)), ..acc }),
                }
            } else if key == "did"@ {
                match verdict_in(vs, trim(value)) {
                    Some(Ok(c)) => Ok(CardFields { did: Some(c), ..acc }),
                    Some(Err(e)) => Err("The card's DID is malformed: "@ + e),
                    None => Err("The card's DID is malformed."@),
                }
            } else if key == "name"@ {
                match label_outcome(value) {
                    Err(m) => Err(m),
                    Ok(n) => Ok(CardFields { name: Some(n), ..acc }),
                }
            } else {
                Err("The connection card has an unknown field."@)
            }
        },
    }
}

/// Reads the fields in turn, stopping at the first refusal.
pub open spec fn card_fields(acc: CardFields, fields: Seq<Seq<char>>, vs: Seq<(Seq<char>, Result<Seq<char>, Seq<char>>)>) -> Result<CardFields, Seq<char>>
    decreases fields.len(),
{
    if fields.len() == 0 {
        Ok(acc)
    } else {
        match card_field(acc, fields[0], vs) {
            Err(m) => Err(m),
            Ok(next) => card_fields(next, fields.drop_first(), vs),
        }
    }
}

/// What reading a card gives: the trimmed text split at semicolons must
/// start with the card prefix, and the fields after it must name an
/// endpoint, a DID and a name.
pub open spec fn card_decoding(text: Seq<char>, vs: Seq<(Seq<char>, Result<Seq<char>, Seq<char>>)>) -> Result<(Seq<char>, Seq<char>, Seq<char>), Seq<char>> {
    let parts = split_on(trim(text), ';');
    if parts[0] != "mininet-peer-v1"@ {
        Err("This is not a Mininet connection card."@)
    } else {
        match card_fields(CardFields { endpoint: None, did: None, name: None }, parts.skip(1), vs) {
            Err(m) => Err(m),
            Ok(acc) => match acc.endpoint {
                None => Err("The connection card has no endpoint."@),
                Some(endpoint) => match acc.did {
                    None => Err("The connection card has no DID."@),
                    Some(did) => match acc.name {
                        None => Err("The connection card has no name."@),
                        Some(name) => Ok((endpoint, did, name)),
                    },
                },
            },
        }
    }
}

impl ConnectionCard {
    /// The card as one line of text; the name loses its semicolons and
    /// control characters so that it cannot break the fields apart.
    pub fn encode(&self) -> (text: String)
        ensures
            text@ == card_text(self.endpoint@, self.did@, self.name@),
    {
        let chars = chars_of(self.name.as_str());
        let mut kept: Vec<char> = Vec::new();
        let mut i: usize = 0;
        assert(chars@.take(0) =~= Seq::<char>::empty());
        while i < chars.len()
            invariant
                i <= chars@.len(),
                kept@ == card_name(chars@.take(i as int)),
            decreases chars@.len() - i,
        {
            let c = chars[i];
            let u = c as u32;
            proof {
                assert(chars@.take(i + 1).drop_last() =~= chars@.take(i as int));
                assert(chars@.take(i + 1).last() == c);
            }
            if c != ';' && !(u <= 0x1f || (0x7f <= u && u <= 0x9f)) {
                kept.push(c);
            }
            i = i + 1;
        }
        assert(chars@.take(i as int) =~= chars@);
        let mut out = String::from_str("mininet-peer-v1;endpoint=");
        out.append(self.endpoint.as_str());
        out.append(";did=");
        out.append(self.did.as_str());
        out.append(";name=");
        push_chars(&mut out, kept.as_slice());
        out
    }

    /// Read a card pasted by another person. Surrounding whitespace is
    /// ignored; each field is `key=value` after the prefix, and endpoint,
    /// DID and name are all required.
    pub fn decode(text: &str, verdicts: &DidVerdicts) -> (r: Result<ConnectionCard, String>)
        ensures
            match card_decoding(text@, verdicts@) {
                Ok((endpoint, did, name)) => r matches Ok(card) && card.endpoint@ == endpoint
                    && card.did@ == did && card.name@ == name,
                Err(m) => r matches Err(e) && e@ == m,
            },
    {
        let raw = chars_of(text);
        let (a, b) = trim_bounds(&raw);
        let chars = sub_chars(&raw, a, b);
        let ghost t = chars@;
        let pieces = split_ranges(&chars, 0, chars.len(), ';');
        let ghost parts = split_on(t, ';');
        proof {
            assert(chars@.subrange(0, chars@.len() as int) =~= chars@);
            crate::records::lemma_find_char(t, ';');
        }
        let prefix = sub_chars(&chars, pieces[0].0, pieces[0].1);
        if !equals(&prefix, chars_of("mininet-peer-v1").as_slice()) {
            return Err(String::from_str("This is not a Mininet connection card."));
        }
        let mut endpoint: Option<String> = None;
        let mut did: Option<String> = None;
        let mut name: Option<String> = None;
        let mut k: usize = 1;
        proof {
            assert(parts.skip(1).skip(0) =~= parts.skip(1));
        }
        while k < pieces.len()
            invariant
                1 <= k <= pieces@.len(),
                pieces@.len() == parts.len(),
                parts == split_on(t, ';'),
                t == chars@,
                t == trim(text@),
                parts.len() >= 1,
                parts[0] == "mininet-peer-v1"@,
                forall|j: int|
                    0 <= j < pieces@.len() ==> (#[trigger] pieces@[j]).0 <= pieces@[j].1
                        <= chars@.len() && chars@.subrange(pieces@[j].0 as int, pieces@[j].1 as int)
                        == parts[j],
                card_fields(CardFields { endpoint: None, did: None, name: None }, parts.skip(1), verdicts@)
                    == card_fields(
                    CardFields {
                        endpoint: opt_text(endpoint),
                        did: opt_text(did),
                        name: opt_text(name),
                    },
                    parts.skip(k as int),
                    verdicts@,
                ),
            decreases pieces@.len() - k,
        {
            let ghost rest = parts.skip(k as int);
            proof {
                assert(pieces@[k as int].0 <= pieces@[k as int].1 <= chars@.len());
                assert(rest[0] == parts[k as int]);
                assert(rest.drop_first() =~= parts.skip(k + 1));
            }
            let field = sub_chars(&chars, pieces[k].0, pieces[k].1);
            let mut eq: usize = 0;
            while eq < field.len() && field[eq] != '='
                invariant
                    eq <= field@.len(),
                    forall|j: int| 0 <= j < eq ==> #[trigger] field@[j] != '=',
                decreases field@.len() - eq,
            {
                eq = eq + 1;
            }
            proof {
                crate::records::lemma_find_char_at(field@, '=', eq as int);
            }
            if eq == field.len() {
                return Err(String::from_str("The connection card is malformed."));
            }
            let key = sub_chars(&field, 0, eq);
            let value = string_of(sub_chars(&field, eq + 1, field.len()).as_slice());
            proof {
                assert(key@ =~= field@.take(eq as int));
                assert(value@ =~= field@.skip(eq + 1 as int));
            }
            if equals(&key, chars_of("endpoint").as_slice()) {
                endpoint = Some(validate_endpoint(value.as_str())?);
            } else if equals(&key, chars_of("did").as_slice()) {
                let vchars = chars_of(value.as_str());
                let (x, y) = trim_bounds(&vchars);
                let t = string_of(sub_chars(&vchars, x, y).as_slice());
                match verdicts.lookup(&t) {
                    Some(Ok(c)) => {
                        did = Some(c);
                    },
                    Some(Err(e)) => {
                        let mut m = String::from_str("The card's DID is malformed: ");
                        m.append(e.as_str());
                        return Err(m);
                    },
                    None => {
                        return Err(String::from_str("The card's DID is malformed."));
                    },
                }
            } else if equals(&key, chars_of("name").as_slice()) {
                name = Some(clean_label(value.as_str())?);
            } else {
                return Err(String::from_str("The connection card has an unknown field."));
            }
            k = k + 1;
        }
        assert(parts.skip(k as int).len() == 0);
        let endpoint = match endpoint {
            Some(e) => e,
            None => {
                return Err(String::from_str("The connection card has no endpoint."));
            },
        };
        let did = match did {
            Some(d) => d,
            None => {
                return Err(String::from_str("The connection card has no DID."));
            },
        };
        let name = match name {
            Some(n) => n,
            None => {
                return Err(String::from_str("The connection card has no name."));
            },
        };
        Ok(ConnectionCard { endpoint, did, name })
    }
}

/// A peer as saving it leaves it: a clean name, a valid trimmed endpoint,
/// and a DID that is trimmed, not blank and free of tabs and line feeds.
pub open spec fn peer_saveable(p: PeerView) -> bool {
    &&& label_outcome(p.label) == Ok::<Seq<char>, Seq<char>>(p.label)
    &&& endpoint_error(p.endpoint) is None
    &&& trim(p.endpoint) == p.endpoint
    &&& match p.did {
        Some(d) => trim(d) == d && d.len() > 0 && !d.contains('\t') && !d.contains('\n'),
        None => true,
    }
}

/// Settings that reading back can reproduce: a non-zero port, a creator
/// share of at most 10000 basis points, no more peers than the limit, each
/// as saving leaves it, and each endpoint once.
pub open spec fn saveable(s: SettingsView) -> bool {
    &&& s.listen_port != 0
    &&& s.creator_bps <= 10_000
    &&& s.peers.len() <= MAX_SESSION_PEERS
    &&& forall|i: int| 0 <= i < s.peers.len() ==> peer_saveable(#[trigger] s.peers[i])
    &&& forall|i: int, j: int|
        0 <= i < j < s.peers.len() ==> (#[trigger] s.peers[i]).endpoint != (
        #[trigger] s.peers[j]).endpoint
}

/// Each peer's DID is one the parser takes as its own canonical text.
pub open spec fn dids_accepted(ps: Seq<PeerView>, vs: Seq<(Seq<char>, Result<Seq<char>, Seq<char>>)>) -> bool {
    forall|i: int|
        0 <= i < ps.len() ==> ((#[trigger] ps[i]).did matches Some(d) ==> verdict_in(vs, d)
            == Some(Ok::<Seq<char>, Seq<char>>(d)))
}

/// Saved settings read back as the same settings, when they are settings
/// that saving and reading can produce and the parser accepts their DIDs.
pub proof fn lemma_settings_round_trip(s: SettingsView, vs: Seq<(Seq<char>, Result<Seq<char>, Seq<char>>)>)
    requires
        saveable(s),
        dids_accepted(s.peers, vs),
    ensures
        settings_decoding(settings_text(s), vs) == Ok::<SettingsView, Seq<char>>(s),
{
    reveal_strlit("mininet-connections/1");
    let h = settings_header();
    lemma_settings_lines(s);
    let ls = lines(settings_text(s));
    assert(ls.skip(1) =~= scalar_bodies(s) + peer_bodies(s.peers));
    crate::text::lemma_trim_fixed(h);
    assert(trim(ls[0]) == h);
    lemma_settings_apply(s, vs);
}

/// One saved setting line without its line feed.
pub open spec fn setting_body(key: Seq<char>, value: Seq<char>) -> Seq<char> {
    key + seq!['\t'] + value
}

/// The setting lines of saved settings, without their line feeds.
pub open spec fn scalar_bodies(s: SettingsView) -> Seq<Seq<char>> {
    seq![
        setting_body("port"@, decimal(s.listen_port as nat)),
        setting_body("session_length"@, decimal(s.session_length.code_of() as nat)),
        setting_body("session_on_launch"@, flag_text(s.session_on_launch)),
        setting_body("host_on_launch"@, flag_text(s.host_on_launch)),
        setting_body("router_mapping_on_launch"@, flag_text(s.router_mapping_on_launch)),
        setting_body("include_private"@, flag_text(s.include_private)),
        setting_body("rate_micro_per_mb"@, decimal(s.rate_micro_per_mb as nat)),
        setting_body("max_pay_micro_per_mb"@, decimal(s.max_pay_micro_per_mb as nat)),
        setting_body("creator_bps"@, decimal(s.creator_bps as nat)),
    ]
}

/// Lines, each ended by a line feed, before `tail`.
pub open spec fn joined(bs: Seq<Seq<char>>, tail: Seq<char>) -> Seq<char>
    decreases bs.len(),
{
    if bs.len() == 0 {
        tail
    } else {
        bs[0] + seq!['\n'] + joined(bs.drop_first(), tail)
    }
}

proof fn lemma_lines_joined(bs: Seq<Seq<char>>, tail: Seq<char>)
    requires
        forall|i: int|
            0 <= i < bs.len() ==> !(#[trigger] bs[i]).contains('\n') && strip_cr(bs[i]) == bs[i],
    ensures
        lines(joined(bs, tail)) == bs + lines(tail),
    decreases bs.len(),
{
    if bs.len() == 0 {
        assert(bs + lines(tail) =~= lines(tail));
    } else {
        let rest = bs.drop_first();
        assert(!bs[0].contains('\n') && strip_cr(bs[0]) == bs[0]);
        assert forall|i: int|
            0 <= i < rest.len() implies !(#[trigger] rest[i]).contains('\n') && strip_cr(rest[i])
            == rest[i] by {
            assert(rest[i] == bs[i + 1]);
        }
        lemma_lines_joined(rest, tail);
        lemma_lines_cons(bs[0], joined(rest, tail));
        assert(lines(joined(bs, tail)) =~= bs + lines(tail));
    }
}

proof fn lemma_joined_step(bs: Seq<Seq<char>>, k: int, tail: Seq<char>)
    requires
        0 <= k < bs.len(),
    ensures
        joined(bs.skip(k), tail) == bs[k] + seq!['\n'] + joined(bs.skip(k + 1), tail),
{
    assert(bs.skip(k)[0] == bs[k]);
    assert(bs.skip(k).drop_first() =~= bs.skip(k + 1));
}

proof fn lemma_regroup(p: Seq<char>, b: Seq<char>, j: Seq<char>)
    ensures
        p + (b + seq!['\n']) + j == p + (b + seq!['\n'] + j),
{
    assert(p + (b + seq!['\n']) + j =~= p + (b + seq!['\n'] + j));
}

#[verifier::spinoff_prover]
proof fn lemma_settings_shape(s: SettingsView)
    ensures
        settings_text(s) == settings_header() + seq!['\n'] + joined(
            scalar_bodies(s),
            peer_lines(s.peers),
        ),
{
    let sb = scalar_bodies(s);
    let tail = peer_lines(s.peers);
    let nl = seq!['\n'];
    let p0 = settings_header() + nl;
    let p1 = p0 + (sb[0] + nl);
    let p2 = p1 + (sb[1] + nl);
    let p3 = p2 + (sb[2] + nl);
    let p4 = p3 + (sb[3] + nl);
    let p5 = p4 + (sb[4] + nl);
    let p6 = p5 + (sb[5] + nl);
    let p7 = p6 + (sb[6] + nl);
    let p8 = p7 + (sb[7] + nl);
    let p9 = p8 + (sb[8] + nl);
    assert(settings_text(s) == p9 + tail);
    assert(sb.skip(9) =~= Seq::<Seq<char>>::empty());
    assert(joined(sb.skip(9), tail) == tail);
    lemma_joined_step(sb, 8, tail);
    lemma_regroup(p8, sb[8], joined(sb.skip(9), tail));
    lemma_joined_step(sb, 7, tail);
    lemma_regroup(p7, sb[7], joined(sb.skip(8), tail));
    lemma_joined_step(sb, 6, tail);
    lemma_regroup(p6, sb[6], joined(sb.skip(7), tail));
    lemma_joined_step(sb, 5, tail);
    lemma_regroup(p5, sb[5], joined(sb.skip(6), tail));
    lemma_joined_step(sb, 4, tail);
    lemma_regroup(p4, sb[4], joined(sb.skip(5), tail));
    lemma_joined_step(sb, 3, tail);
    lemma_regroup(p3, sb[3], joined(sb.skip(4), tail));
    lemma_joined_step(sb, 2, tail);
    lemma_regroup(p2, sb[2], joined(sb.skip(3), tail));
    lemma_joined_step(sb, 1, tail);
    lemma_regroup(p1, sb[1], joined(sb.skip(2), tail));
    lemma_joined_step(sb, 0, tail);
    lemma_regroup(p0, sb[0], joined(sb.skip(1), tail));
    assert(sb.skip(0) =~= sb);
}

/// The keys of saved settings: lower-case words without tabs or line feeds.
pub open spec fn plain_key(k: Seq<char>) -> bool {
    &&& k.len() > 0
    &&& 'a' <= k[0] <= 'z'
    &&& forall|j: int| 0 <= j < k.len() ==> #[trigger] k[j] != '\t' && k[j] != '\n'
}

proof fn lemma_plain_keys()
    ensures
        plain_key("port"@),
        plain_key("session_length"@),
        plain_key("session_on_launch"@),
        plain_key("host_on_launch"@),
        plain_key("router_mapping_on_launch"@),
        plain_key("include_private"@),
        plain_key("rate_micro_per_mb"@),
        plain_key("max_pay_micro_per_mb"@),
        plain_key("creator_bps"@),
{
    reveal_strlit("port");
    reveal_strlit("session_length");
    reveal_strlit("session_on_launch");
    reveal_strlit("host_on_launch");
    reveal_strlit("router_mapping_on_launch");
    reveal_strlit("include_private");
    reveal_strlit("rate_micro_per_mb");
    reveal_strlit("max_pay_micro_per_mb");
    reveal_strlit("creator_bps");
}

#[verifier::spinoff_prover]
#[verifier::rlimit(60)]
proof fn lemma_settings_lines(s: SettingsView)
    requires
        saveable(s),
    ensures
        lines(settings_text(s)) == seq![settings_header()] + (scalar_bodies(s) + peer_bodies(
            s.peers,
        )),
{
    reveal_strlit("mininet-connections/1");
    let h = settings_header();
    let sb = scalar_bodies(s);
    lemma_plain_keys();
    lemma_value_digits(decimal(s.listen_port as nat));
    lemma_value_digits(decimal(s.session_length.code_of() as nat));
    lemma_value_digits(decimal(s.rate_micro_per_mb as nat));
    lemma_value_digits(decimal(s.max_pay_micro_per_mb as nat));
    lemma_value_digits(decimal(s.creator_bps as nat));
    lemma_flag_digits(s.session_on_launch);
    lemma_flag_digits(s.host_on_launch);
    lemma_flag_digits(s.router_mapping_on_launch);
    lemma_flag_digits(s.include_private);
    lemma_key_line("port"@, decimal(s.listen_port as nat));
    lemma_key_line("session_length"@, decimal(s.session_length.code_of() as nat));
    lemma_key_line("session_on_launch"@, flag_text(s.session_on_launch));
    lemma_key_line("host_on_launch"@, flag_text(s.host_on_launch));
    lemma_key_line("router_mapping_on_launch"@, flag_text(s.router_mapping_on_launch));
    lemma_key_line("include_private"@, flag_text(s.include_private));
    lemma_key_line("rate_micro_per_mb"@, decimal(s.rate_micro_per_mb as nat));
    lemma_key_line("max_pay_micro_per_mb"@, decimal(s.max_pay_micro_per_mb as nat));
    lemma_key_line("creator_bps"@, decimal(s.creator_bps as nat));
    assert forall|i: int|
        0 <= i < sb.len() implies !(#[trigger] sb[i]).contains('\n') && strip_cr(sb[i]) == sb[i] by {
        if i == 0 {
        } else if i == 1 {
        } else if i == 2 {
        } else if i == 3 {
        } else if i == 4 {
        } else if i == 5 {
        } else if i == 6 {
        } else if i == 7 {
        } else {
        }
    }
    lemma_settings_shape(s);
    lemma_lines_joined(sb, peer_lines(s.peers));
    lemma_lines_peers(s.peers);
    assert forall|j: int| 0 <= j < h.len() implies #[trigger] h[j] != '\n' by {}
    assert(strip_cr(h) == h);
    lemma_lines_cons(h, joined(sb, peer_lines(s.peers)));
    assert(lines(settings_text(s)) =~= seq![h] + (sb + peer_bodies(s.peers)));
}

#[verifier::spinoff_prover]
#[verifier::rlimit(60)]
proof fn lemma_settings_apply(s: SettingsView, vs: Seq<(Seq<char>, Result<Seq<char>, Seq<char>>)>)
    requires
        saveable(s),
        dids_accepted(s.peers, vs),
    ensures
        apply_lines(default_settings(), scalar_bodies(s) + peer_bodies(s.peers), vs) == Ok::<
            SettingsView,
            Seq<char>,
        >(s),
{
    reveal_strlit("port");
    reveal_strlit("session_length");
    reveal_strlit("session_on_launch");
    reveal_strlit("host_on_launch");
    reveal_strlit("router_mapping_on_launch");
    reveal_strlit("include_private");
    reveal_strlit("rate_micro_per_mb");
    reveal_strlit("max_pay_micro_per_mb");
    reveal_strlit("creator_bps");
    reveal_strlit("peer");
    let sb = scalar_bodies(s);
    let bodies = peer_bodies(s.peers);
    let v1 = decimal(s.listen_port as nat);
    let v2 = decimal(s.session_length.code_of() as nat);
    let v7 = decimal(s.rate_micro_per_mb as nat);
    let v8 = decimal(s.max_pay_micro_per_mb as nat);
    let v9 = decimal(s.creator_bps as nat);
    lemma_value_digits(v1);
    lemma_value_digits(v2);
    lemma_value_digits(v7);
    lemma_value_digits(v8);
    lemma_value_digits(v9);
    lemma_flag_digits(s.session_on_launch);
    lemma_flag_digits(s.host_on_launch);
    lemma_flag_digits(s.router_mapping_on_launch);
    lemma_flag_digits(s.include_private);
    lemma_key_line("port"@, v1);
    lemma_key_line("session_length"@, v2);
    lemma_key_line("session_on_launch"@, flag_text(s.session_on_launch));
    lemma_key_line("host_on_launch"@, flag_text(s.host_on_launch));
    lemma_key_line("router_mapping_on_launch"@, flag_text(s.router_mapping_on_launch));
    lemma_key_line("include_private"@, flag_text(s.include_private));
    lemma_key_line("rate_micro_per_mb"@, v7);
    lemma_key_line("max_pay_micro_per_mb"@, v8);
    lemma_key_line("creator_bps"@, v9);
    lemma_parse_decimal(s.listen_port as nat, 65535);
    lemma_parse_decimal(s.session_length.code_of() as nat, 255);
    lemma_parse_decimal(s.rate_micro_per_mb as nat, u64::MAX as nat);
    lemma_parse_decimal(s.max_pay_micro_per_mb as nat, u64::MAX as nat);
    lemma_parse_decimal(s.creator_bps as nat, 65535);
    assert("port"@[1] != "peer"@[1]);
    assert("host_on_launch"@[0] != "session_length"@[0]);
    assert("rate_micro_per_mb"@[0] != "session_on_launch"@[0]);
    assert(SessionLength::of_code(s.session_length.code_of()) == Some(s.session_length));
    let t8 = seq![sb[8]] + bodies;
    let t7 = seq![sb[7]] + t8;
    let t6 = seq![sb[6]] + t7;
    let t5 = seq![sb[5]] + t6;
    let t4 = seq![sb[4]] + t5;
    let t3 = seq![sb[3]] + t4;
    let t2 = seq![sb[2]] + t3;
    let t1 = seq![sb[1]] + t2;
    assert(sb + bodies =~= seq![sb[0]] + t1);
    let c0 = default_settings();
    let c1 = SettingsView { listen_port: s.listen_port, ..c0 };
    let c2 = SettingsView { session_length: s.session_length, ..c1 };
    let c3 = SettingsView { session_on_launch: s.session_on_launch, ..c2 };
    let c4 = SettingsView { host_on_launch: s.host_on_launch, ..c3 };
    let c5 = SettingsView { router_mapping_on_launch: s.router_mapping_on_launch, ..c4 };
    let c6 = SettingsView { include_private: s.include_private, ..c5 };
    let c7 = SettingsView { rate_micro_per_mb: s.rate_micro_per_mb, ..c6 };
    let c8 = SettingsView { max_pay_micro_per_mb: s.max_pay_micro_per_mb, ..c7 };
    let c9 = SettingsView { creator_bps: s.creator_bps, ..c8 };
    lemma_apply_step(c0, sb[0], t1, c1, vs);
    lemma_apply_step(c1, sb[1], t2, c2, vs);
    lemma_apply_step(c2, sb[2], t3, c3, vs);
    lemma_apply_step(c3, sb[3], t4, c4, vs);
    lemma_apply_step(c4, sb[4], t5, c5, vs);
    lemma_apply_step(c5, sb[5], t6, c6, vs);
    lemma_apply_step(c6, sb[6], t7, c7, vs);
    lemma_apply_step(c7, sb[7], t8, c8, vs);
    lemma_apply_step(c8, sb[8], bodies, c9, vs);
    lemma_apply_peers(c9, s.peers, vs);
    assert(c9.peers + s.peers =~= s.peers);
    assert((SettingsView { peers: c9.peers + s.peers, ..c9 }) =~= s);
}

/// A saved peer line without its line feed.
pub open spec fn peer_body(p: PeerView) -> Seq<char> {
    "peer"@ + seq!['\t'] + p.label + seq!['\t'] + p.endpoint + seq!['\t'] + did_text(p.did)
}

/// The saved peer lines without their line feeds.
pub open spec fn peer_bodies(ps: Seq<PeerView>) -> Seq<Seq<char>> {
    Seq::new(ps.len(), |i: int| peer_body(ps[i]))
}

proof fn lemma_value_digits(v: Seq<char>)
    requires
        exists|n: nat| v == decimal(n),
    ensures
        v.len() > 0,
        forall|j: int| 0 <= j < v.len() ==> '0' <= #[trigger] v[j] <= '9',
{
    let n = choose|n: nat| v == decimal(n);
    lemma_decimal_digits(n);
}

proof fn lemma_flag_digits(b: bool)
    ensures
        flag_text(b).len() > 0,
        forall|j: int| 0 <= j < flag_text(b).len() ==> '0' <= #[trigger] flag_text(b)[j] <= '9',
        flag_value(flag_text(b)) == Some(b),
{
    if !b {
        assert(flag_text(b)[0] != seq!['1'][0]);
        assert(flag_text(b) != seq!['1']);
    }
}

/// A setting's line: not blank, no line feed, nothing to strip, and split
/// at its one tab into the key and the value.
proof fn lemma_key_line(key: Seq<char>, value: Seq<char>)
    requires
        plain_key(key),
        value.len() > 0,
        forall|j: int| 0 <= j < value.len() ==> '0' <= #[trigger] value[j] <= '9',
    ensures
        !setting_body(key, value).contains('\n'),
        strip_cr(setting_body(key, value)) == setting_body(key, value),
        trim(setting_body(key, value)).len() > 0,
        split_on(setting_body(key, value), '\t') == seq![key, value],
{
    let b = key + seq!['\t'] + value;
    assert forall|j: int| 0 <= j < b.len() implies #[trigger] b[j] != '\n' by {
        if j < key.len() {
            assert(b[j] == key[j]);
        } else if j > key.len() {
            assert(b[j] == value[j - key.len() - 1]);
        }
    }
    assert(b.last() == value.last());
    assert(b[0] == key[0]);
    crate::text::lemma_trim_nonblank(b);
    assert(!key.contains('\t'));
    assert forall|j: int| 0 <= j < value.len() implies #[trigger] value[j] != '\t' by {}
    lemma_split_cons(key, '\t', value);
    lemma_split_none(value, '\t');
    assert(seq![key] + seq![value] =~= seq![key, value]);
}

proof fn lemma_apply_step(
    cur: SettingsView,
    b: Seq<char>,
    rest: Seq<Seq<char>>,
    next: SettingsView,
    vs: Seq<(Seq<char>, Result<Seq<char>, Seq<char>>)>,
)
    requires
        trim(b).len() > 0,
        apply_line(cur, b, vs) == Ok::<SettingsView, Seq<char>>(next),
    ensures
        apply_lines(cur, seq![b] + rest, vs) == apply_lines(next, rest, vs),
{
    let ls = seq![b] + rest;
    assert(ls[0] == b);
    assert(ls.drop_first() =~= rest);
}

/// What a saved peer is made of, as saved text.
proof fn lemma_peer_body(p: PeerView)
    requires
        peer_saveable(p),
    ensures
        !peer_body(p).contains('\n'),
        strip_cr(peer_body(p)) == peer_body(p),
        trim(peer_body(p)).len() > 0,
        split_on(peer_body(p), '\t') == seq!["peer"@, p.label, p.endpoint, did_text(p.did)],
        peer_line(p) == peer_body(p) + seq!['\n'],
{
    reveal_strlit("peer");
    let k = "peer"@;
    let l = p.label;
    let e = p.endpoint;
    let d = did_text(p.did);
    lemma_clean_label(trim(l));
    assert forall|j: int| 0 <= j < l.len() implies #[trigger] l[j] != '\t' && l[j] != '\n' by {
        assert(!is_control(l[j]));
    }
    assert forall|j: int| 0 <= j < e.len() implies #[trigger] e[j] != '\t' && e[j] != '\n' by {
        assert(!crate::text::is_space(e[j]));
    }
    assert forall|j: int| 0 <= j < d.len() implies #[trigger] d[j] != '\t' && d[j] != '\n' by {
        if p.did is Some {
            assert(!p.did->Some_0.contains('\t'));
            assert(!p.did->Some_0.contains('\n'));
        }
    }
    let b = peer_body(p);
    assert forall|j: int| 0 <= j < b.len() implies #[trigger] b[j] != '\n' by {
        if j < 4 {
            assert(b[j] == k[j]);
        } else if 4 < j < 5 + l.len() {
            assert(b[j] == l[j - 5]);
        } else if 5 + l.len() < j < 6 + l.len() + e.len() {
            assert(b[j] == e[j - 6 - l.len()]);
        } else if 6 + l.len() + e.len() < j {
            assert(b[j] == d[j - 7 - l.len() - e.len()]);
        }
    }
    if d.len() > 0 {
        crate::text::lemma_trimmed_ends(d);
        assert(b.last() == d.last());
    } else {
        assert(b.last() == '\t');
    }
    assert(b[0] == 'p');
    crate::text::lemma_trim_nonblank(b);
    assert(!k.contains('\t'));
    assert(!l.contains('\t'));
    assert(!e.contains('\t'));
    assert(!d.contains('\t'));
    assert(b =~= k + seq!['\t'] + (l + seq!['\t'] + (e + seq!['\t'] + d)));
    lemma_split_cons(k, '\t', l + seq!['\t'] + (e + seq!['\t'] + d));
    lemma_split_cons(l, '\t', e + seq!['\t'] + d);
    lemma_split_cons(e, '\t', d);
    lemma_split_none(d, '\t');
    assert(split_on(b, '\t') =~= seq![k, l, e, d]);
    assert(peer_line(p) =~= peer_body(p) + seq!['\n']);
}

/// A cleaned name holds no control characters.
proof fn lemma_clean_label(s: Seq<char>)
    ensures
        forall|j: int| 0 <= j < without_controls(s).len() ==> !is_control(
            #[trigger] without_controls(s)[j],
        ),
    decreases s.len(),
{
    if s.len() > 0 {
        lemma_clean_label(s.drop_last());
        let w = without_controls(s.drop_last());
        assert forall|j: int| 0 <= j < without_controls(s).len() implies !is_control(
            #[trigger] without_controls(s)[j],
        ) by {
            if j < w.len() {
                assert(without_controls(s)[j] == w[j]);
            }
        }
    }
}

proof fn lemma_lines_peers(ps: Seq<PeerView>)
    requires
        forall|i: int| 0 <= i < ps.len() ==> peer_saveable(#[trigger] ps[i]),
    ensures
        lines(peer_lines(ps)) == peer_bodies(ps),
    decreases ps.len(),
{
    if ps.len() == 0 {
        assert(lines(peer_lines(ps)) =~= peer_bodies(ps));
    } else {
        let p = ps[0];
        assert(peer_saveable(ps[0]));
        lemma_peer_body(p);
        let tail = ps.drop_first();
        assert forall|i: int| 0 <= i < tail.len() implies peer_saveable(#[trigger] tail[i]) by {
            assert(tail[i] == ps[i + 1]);
        }
        lemma_lines_peers(tail);
        assert(peer_lines(ps) =~= peer_body(p) + seq!['\n'] + peer_lines(tail));
        lemma_lines_cons(peer_body(p), peer_lines(tail));
        assert(lines(peer_lines(ps)) =~= peer_bodies(ps));
    }
}

proof fn lemma_apply_peers(cur: SettingsView, ps: Seq<PeerView>, vs: Seq<(Seq<char>, Result<Seq<char>, Seq<char>>)>)
    requires
        dids_accepted(ps, vs),
        cur.peers.len() + ps.len() <= MAX_SESSION_PEERS,
        forall|i: int| 0 <= i < ps.len() ==> peer_saveable(#[trigger] ps[i]),
        forall|i: int, j: int|
            0 <= i < j < ps.len() ==> (#[trigger] ps[i]).endpoint != (#[trigger] ps[j]).endpoint,
        forall|i: int, j: int|
            0 <= i < cur.peers.len() && 0 <= j < ps.len() ==> (#[trigger] cur.peers[i]).endpoint
                != (#[trigger] ps[j]).endpoint,
    ensures
        apply_lines(cur, peer_bodies(ps), vs) == Ok::<SettingsView, Seq<char>>(
            SettingsView { peers: cur.peers + ps, ..cur },
        ),
    decreases ps.len(),
{
    reveal_strlit("port");
    reveal_strlit("session_length");
    reveal_strlit("session_on_launch");
    reveal_strlit("host_on_launch");
    reveal_strlit("router_mapping_on_launch");
    reveal_strlit("include_private");
    reveal_strlit("rate_micro_per_mb");
    reveal_strlit("max_pay_micro_per_mb");
    reveal_strlit("creator_bps");
    reveal_strlit("peer");
    if ps.len() == 0 {
        assert(cur.peers + ps =~= cur.peers);
        assert((SettingsView { peers: cur.peers + ps, ..cur }) =~= cur);
    } else {
        let p = ps[0];
        assert(peer_saveable(ps[0]));
        lemma_peer_body(p);
        assert("port"@[1] != "peer"@[1]);
        let d = did_text(p.did);
        assert(did_choice(Some(d), vs) == Ok::<Option<Seq<char>>, Seq<char>>(p.did)) by {
            assert(ps[0] == p);
            if p.did is Some {
                crate::text::lemma_trimmed_ends(p.did->Some_0);
            }
        }
        assert forall|j: int| 0 <= j < cur.peers.len() implies (#[trigger] cur.peers[j]).endpoint
            != p.endpoint by {
            assert(cur.peers[j].endpoint != ps[0].endpoint);
        }
        lemma_find_endpoint_at(cur.peers, p.endpoint, cur.peers.len() as int);
        assert(PeerView { label: p.label, endpoint: trim(p.endpoint), did: p.did } == p);
        let next = SettingsView { peers: cur.peers.push(p), ..cur };
        assert(apply_line(cur, peer_body(p), vs) == Ok::<SettingsView, Seq<char>>(next));
        let tail = ps.drop_first();
        assert(peer_bodies(ps) =~= seq![peer_body(p)] + peer_bodies(tail));
        lemma_apply_step(cur, peer_body(p), peer_bodies(tail), next, vs);
        assert forall|i: int| 0 <= i < tail.len() implies peer_saveable(#[trigger] tail[i]) by {
            assert(tail[i] == ps[i + 1]);
        }
        assert forall|i: int, j: int| 0 <= i < j < tail.len() implies (#[trigger] tail[i]).endpoint
            != (#[trigger] tail[j]).endpoint by {
            assert(tail[i] == ps[i + 1] && tail[j] == ps[j + 1]);
        }
        assert forall|i: int, j: int|
            0 <= i < next.peers.len() && 0 <= j < tail.len() implies (
            #[trigger] next.peers[i]).endpoint != (#[trigger] tail[j]).endpoint by {
            assert(tail[j] == ps[j + 1]);
            if i < cur.peers.len() {
                assert(next.peers[i] == cur.peers[i]);
            } else {
                assert(next.peers[i] == ps[0]);
            }
        }
        assert(dids_accepted(tail, vs)) by {
            assert forall|i: int| 0 <= i < tail.len() implies ((#[trigger] tail[i]).did matches Some(
                d,
            ) ==> verdict_in(vs, d) == Some(Ok::<Seq<char>, Seq<char>>(d))) by {
                assert(tail[i] == ps[i + 1]);
            }
        }
        lemma_apply_peers(next, tail, vs);
        assert(next.peers + tail =~= cur.peers + ps);
    }
}

/// A card's name holds no semicolons or control characters.
proof fn lemma_card_name_plain(s: Seq<char>)
    ensures
        forall|j: int| 0 <= j < card_name(s).len() ==> #[trigger] card_name(s)[j] != ';' && !is_control(
            card_name(s)[j],
        ),
    decreases s.len(),
{
    if s.len() > 0 {
        lemma_card_name_plain(s.drop_last());
        let w = card_name(s.drop_last());
        assert forall|j: int| 0 <= j < card_name(s).len() implies #[trigger] card_name(s)[j] != ';'
            && !is_control(card_name(s)[j]) by {
            if j < w.len() {
                assert(card_name(s)[j] == w[j]);
            }
        }
    }
}

/// Text without control characters keeps all of them when they are
/// dropped.
proof fn lemma_without_controls_plain(s: Seq<char>)
    requires
        forall|j: int| 0 <= j < s.len() ==> !is_control(#[trigger] s[j]),
    ensures
        without_controls(s) == s,
    decreases s.len(),
{
    if s.len() > 0 {
        assert forall|j: int| 0 <= j < s.drop_last().len() implies !is_control(
            #[trigger] s.drop_last()[j],
        ) by {
            assert(s.drop_last()[j] == s[j]);
        }
        lemma_without_controls_plain(s.drop_last());
        assert(!is_control(s[s.len() - 1]));
        assert(s.drop_last().push(s.last()) =~= s);
    }
}

/// One `key=value` card field: split at its first `=`.
proof fn lemma_card_field_parts(key: Seq<char>, value: Seq<char>)
    requires
        !key.contains('='),
    ensures
        find_char(key + seq!['='] + value, '=') == Some(key.len()),
        (key + seq!['='] + value).take(key.len() as int) == key,
        (key + seq!['='] + value).skip(key.len() + 1 as int) == value,
{
    let f = key + seq!['='] + value;
    assert forall|j: int| 0 <= j < key.len() implies #[trigger] f[j] != '=' by {
        assert(f[j] == key[j]);
    }
    assert(f[key.len() as int] == '=');
    crate::records::lemma_find_char_at(f, '=', key.len() as int);
    assert(f.take(key.len() as int) =~= key);
    assert(f.skip(key.len() + 1 as int) =~= value);
}

/// A card read back gives its endpoint, its DID, and its name without
/// semicolons and control characters, when the endpoint is a valid trimmed
/// endpoint and the DID trimmed text, neither holding a semicolon, and the
/// name so left is a valid peer name without surrounding whitespace.
pub proof fn lemma_card_round_trip(endpoint: Seq<char>, did: Seq<char>, name: Seq<char>, vs: Seq<(Seq<char>, Result<Seq<char>, Seq<char>>)>)
    requires
        verdict_in(vs, did) == Some(Ok::<Seq<char>, Seq<char>>(did)),
        endpoint_error(endpoint) is None,
        trim(endpoint) == endpoint,
        !endpoint.contains(';'),
        trim(did) == did,
        did.len() > 0,
        !did.contains(';'),
        trim(card_name(name)) == card_name(name),
        label_outcome(card_name(name)) is Ok,
    ensures
        card_decoding(card_text(endpoint, did, name), vs) == Ok::<
            (Seq<char>, Seq<char>, Seq<char>),
            Seq<char>,
        >((endpoint, did, card_name(name))),
{
    reveal_strlit("mininet-peer-v1");
    let cn = card_name(name);
    lemma_card_name_plain(name);
    lemma_card_split(endpoint, did, name);
    lemma_card_fields(endpoint, did, cn, vs);
    let parts = split_on(trim(card_text(endpoint, did, name)), ';');
    let fs = seq![card_key_field("endpoint"@, endpoint), card_key_field("did"@, did), card_key_field("name"@, cn)];
    assert(parts.skip(1) =~= fs);
}

/// A `key=value` field.
pub open spec fn card_key_field(key: Seq<char>, value: Seq<char>) -> Seq<char> {
    key + seq!['='] + value
}

#[verifier::spinoff_prover]
proof fn lemma_card_split(endpoint: Seq<char>, did: Seq<char>, name: Seq<char>)
    requires
        !endpoint.contains(';'),
        !did.contains(';'),
        trim(card_name(name)) == card_name(name),
        card_name(name).len() > 0,
        forall|j: int| 0 <= j < card_name(name).len() ==> #[trigger] card_name(name)[j] != ';',
    ensures
        split_on(trim(card_text(endpoint, did, name)), ';') == seq![
            "mininet-peer-v1"@,
            card_key_field("endpoint"@, endpoint),
            card_key_field("did"@, did),
            card_key_field("name"@, card_name(name)),
        ],
{
    reveal_strlit("mininet-peer-v1;endpoint=");
    reveal_strlit(";did=");
    reveal_strlit(";name=");
    reveal_strlit("mininet-peer-v1");
    reveal_strlit("endpoint");
    reveal_strlit("did");
    reveal_strlit("name");
    let cn = card_name(name);
    let t = card_text(endpoint, did, name);
    let prefix = "mininet-peer-v1"@;
    let f1 = card_key_field("endpoint"@, endpoint);
    let f2 = card_key_field("did"@, did);
    let f3 = card_key_field("name"@, cn);
    assert(t =~= prefix + seq![';'] + (f1 + seq![';'] + (f2 + seq![';'] + f3)));
    assert(t[0] == 'm');
    crate::text::lemma_trimmed_ends(cn);
    assert(t.last() == cn.last());
    crate::text::lemma_trim_fixed(t);
    assert(!prefix.contains(';'));
    assert forall|j: int| 0 <= j < f1.len() implies #[trigger] f1[j] != ';' by {
        if j >= 9 {
            assert(f1[j] == endpoint[j - 9]);
        }
    }
    assert forall|j: int| 0 <= j < f2.len() implies #[trigger] f2[j] != ';' by {
        if j >= 4 {
            assert(f2[j] == did[j - 4]);
        }
    }
    assert forall|j: int| 0 <= j < f3.len() implies #[trigger] f3[j] != ';' by {
        if j >= 5 {
            assert(f3[j] == cn[j - 5]);
        }
    }
    crate::records::lemma_split_cons(prefix, ';', f1 + seq![';'] + (f2 + seq![';'] + f3));
    crate::records::lemma_split_cons(f1, ';', f2 + seq![';'] + f3);
    crate::records::lemma_split_cons(f2, ';', f3);
    crate::records::lemma_split_none(f3, ';');
    assert(split_on(t, ';') =~= seq![prefix, f1, f2, f3]);
}

#[verifier::spinoff_prover]
proof fn lemma_card_fields(endpoint: Seq<char>, did: Seq<char>, cn: Seq<char>, vs: Seq<(Seq<char>, Result<Seq<char>, Seq<char>>)>)
    requires
        verdict_in(vs, did) == Some(Ok::<Seq<char>, Seq<char>>(did)),
        endpoint_error(endpoint) is None,
        trim(endpoint) == endpoint,
        trim(did) == did,
        did.len() > 0,
        forall|j: int| 0 <= j < cn.len() ==> !is_control(#[trigger] cn[j]),
        label_outcome(cn) is Ok,
        trim(cn) == cn,
    ensures
        card_fields(
            CardFields { endpoint: None, did: None, name: None },
            seq![
                card_key_field("endpoint"@, endpoint),
                card_key_field("did"@, did),
                card_key_field("name"@, cn),
            ],
            vs,
        ) == Ok::<CardFields, Seq<char>>(
            CardFields { endpoint: Some(endpoint), did: Some(did), name: Some(cn) },
        ),
{
    reveal_strlit("endpoint");
    reveal_strlit("did");
    reveal_strlit("name");
    lemma_without_controls_plain(cn);
    assert(label_outcome(cn) == Ok::<Seq<char>, Seq<char>>(cn));
    let f1 = card_key_field("endpoint"@, endpoint);
    let f2 = card_key_field("did"@, did);
    let f3 = card_key_field("name"@, cn);
    lemma_card_field_parts("endpoint"@, endpoint);
    lemma_card_field_parts("did"@, did);
    lemma_card_field_parts("name"@, cn);
    let a0 = CardFields { endpoint: None, did: None, name: None };
    let a1 = CardFields { endpoint: Some(endpoint), ..a0 };
    let a2 = CardFields { did: Some(did), ..a1 };
    let a3 = CardFields { name: Some(cn), ..a2 };
    assert("did"@ != "endpoint"@);
    assert("name"@ != "endpoint"@);
    assert("name"@[0] != "did"@[0]);
    assert(card_field(a0, f1, vs) == Ok::<CardFields, Seq<char>>(a1));
    assert(card_field(a1, f2, vs) == Ok::<CardFields, Seq<char>>(a2));
    assert(card_field(a2, f3, vs) == Ok::<CardFields, Seq<char>>(a3));
    let fs = seq![f1, f2, f3];
    assert(fs.drop_first() =~= seq![f2, f3]);
    assert(seq![f2, f3].drop_first() =~= seq![f3]);
    assert(seq![f3].drop_first() =~= Seq::<Seq<char>>::empty());
    assert(card_fields(a2, seq![f3], vs) == card_fields(a3, Seq::<Seq<char>>::empty(), vs));
    assert(card_fields(a1, seq![f2, f3], vs) == card_fields(a2, seq![f3], vs));
    assert(card_fields(a0, fs, vs) == card_fields(a1, seq![f2, f3], vs));
}

proof fn lemma_find_endpoint_at(peers: Seq<PeerView>, e: Seq<char>, i: int)
    requires
        0 <= i <= peers.len(),
        forall|j: int| 0 <= j < i ==> (#[trigger] peers[j]).endpoint != e,
        i == peers.len() || peers[i].endpoint == e,
    ensures
        find_endpoint(peers, e) == if i < peers.len() {
            Some(i as nat)
        } else {
            None::<nat>
        },
    decreases i,
{
    if i > 0 {
        let t = peers.drop_first();
        assert(peers[0].endpoint != e);
        assert forall|j: int| 0 <= j < i - 1 implies (#[trigger] t[j]).endpoint != e by {
            assert(t[j] == peers[j + 1]);
        }
        if i < peers.len() {
            assert(t[i - 1] == peers[i]);
        }
        lemma_find_endpoint_at(t, e, i - 1);
    }
}

} // verus!
