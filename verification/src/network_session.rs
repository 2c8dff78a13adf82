//! Owner-started, session-only public sync scheduling. No endpoint is
//! trusted as an identity and nothing here can enable networking on its
//! own. Times are milliseconds on the caller's monotonic clock.
use crate::records::{parse_unsigned, read_unsigned};
use crate::text::{chars_of, is_space, string_of, trim, trim_bounds};
use vstd::prelude::*;
use vstd::string::StringExecFns;
use vstd::utf8::encode_utf8;

verus! {

/// How long one owner consent lasts: fifteen minutes.
pub const SESSION_LIMIT_MS: u64 = 900_000;

/// The pause between successful exchanges: thirty seconds.
pub const SYNC_INTERVAL_MS: u64 = 30_000;

/// The longest pause after failures: two minutes.
pub const MAX_RETRY_MS: u64 = 120_000;

/// The most peers one session exchanges with, and so the most peers the
/// owner can save.
pub const MAX_SESSION_PEERS: usize = 16;

/// How long an owner-started session lasts.
#[derive(Debug, Clone, Copy, PartialEq, Eq, Structural)]
pub enum SessionLength {
    Short,
    Hour,
    WhileOpen,
}

impl SessionLength {
    /// The number a saved setting stores for this length.
    pub open spec fn code_of(self) -> u8 {
        match self {
            SessionLength::Short => 0,
            SessionLength::Hour => 1,
            SessionLength::WhileOpen => 2,
        }
    }

    /// The length a stored number stands for, if any.
    pub open spec fn of_code(code: u8) -> Option<SessionLength> {
        if code == 0 {
            Some(SessionLength::Short)
        } else if code == 1 {
            Some(SessionLength::Hour)
        } else if code == 2 {
            Some(SessionLength::WhileOpen)
        } else {
            None
        }
    }

    pub fn code(self) -> (c: u8)
        ensures
            c == self.code_of(),
    {
        match self {
            SessionLength::Short => 0,
            SessionLength::Hour => 1,
            SessionLength::WhileOpen => 2,
        }
    }

    pub fn from_code(code: u8) -> (r: Option<SessionLength>)
        ensures
            r == SessionLength::of_code(code),
    {
        if code == 0 {
            Some(SessionLength::Short)
        } else if code == 1 {
            Some(SessionLength::Hour)
        } else if code == 2 {
            Some(SessionLength::WhileOpen)
        } else {
            None
        }
    }
}

#[derive(Debug)]
pub struct NetworkSession {
    endpoint: String,
    expires_ms: u64,
    next_attempt_ms: u64,
    failures: u32,
}

/// The position of the last colon in `s`, if any.
pub open spec fn last_colon(s: Seq<char>) -> Option<nat>
    decreases s.len(),
{
    if s.len() == 0 {
        None
    } else if s.last() == ':' {
        Some((s.len() - 1) as nat)
    } else {
        last_colon(s.drop_last())
    }
}

/// Why an endpoint cannot start a session, if it cannot.
pub open spec fn endpoint_error(endpoint: Seq<char>) -> Option<Seq<char>> {
    let e = trim(endpoint);
    if e.len() == 0 || encode_utf8(e).len() > 320 || exists|i: int|
        0 <= i < e.len() && is_space(#[trigger] e[i]) {
        Some("Enter a peer hostname or IP and port."@)
    } else {
        match last_colon(e) {
            None => Some("A peer port is required."@),
            Some(i) => if i == 0 || !(parse_unsigned(e.skip((i + 1) as int), 65535) matches Some(p) && p
                != 0) {
                Some("Enter a peer hostname or IP with a non-zero port."@)
            } else {
                None
            },
        }
    }
}

/// The pause after an exchange, given the failures in a row so far.
pub open spec fn retry_delay_ms(failures: u32) -> u64 {
    if failures == 0 {
        30_000
    } else if failures == 1 {
        60_000
    } else {
        120_000
    }
}

/// Checks an endpoint `host:port` and gives it trimmed: not empty, at most
/// 320 bytes, no whitespace inside, and a non-empty host before the last
/// colon with a non-zero port after it.
pub fn validate_endpoint(endpoint: &str) -> (r: Result<String, String>)
    ensures
        match endpoint_error(endpoint@) {
            Some(msg) => r matches Err(m) && m@ == msg,
            None => r matches Ok(e) && e@ == trim(endpoint@),
        },
{
    let chars = chars_of(endpoint);
    let (a, b) = trim_bounds(&chars);
    let mut e: Vec<char> = Vec::new();
    let mut k: usize = a;
    while k < b
        invariant
            a <= k <= b <= chars@.len(),
            e@ == chars@.subrange(a as int, k as int),
        decreases b - k,
    {
        e.push(chars[k]);
        k = k + 1;
        assert(e@ =~= chars@.subrange(a as int, k as int));
    }
    let trimmed = string_of(e.as_slice());
    let byte_len = trimmed.as_str().as_bytes().len();
    let mut spaced = false;
    let mut i: usize = 0;
    while i < e.len()
        invariant
            i <= e@.len(),
            spaced == exists|j: int| 0 <= j < i && is_space(#[trigger] e@[j]),
        decreases e@.len() - i,
    {
        if crate::text::is_whitespace(e[i]) {
            spaced = true;
        }
        i = i + 1;
    }
    if e.len() == 0 || byte_len > 320 || spaced {
        return Err(String::from_str("Enter a peer hostname or IP and port."));
    }
    let mut colon: usize = e.len();
    while colon > 0 && e[colon - 1] != ':'
        invariant
            colon <= e@.len(),
            forall|j: int| colon <= j < e@.len() ==> #[trigger] e@[j] != ':',
        decreases colon,
    {
        colon = colon - 1;
    }
    proof {
        lemma_last_colon(e@, colon as int - 1);
    }
    if colon == 0 {
        return Err(String::from_str("A peer port is required."));
    }
    let port = read_unsigned(&e, colon, e.len(), 65535);
    proof {
        assert(e@.skip(colon as int) =~= e@.subrange(colon as int, e@.len() as int));
    }
    let valid = match port {
        Some(p) => p != 0,
        None => false,
    };
    if colon == 1 || !valid {
        return Err(String::from_str("Enter a peer hostname or IP with a non-zero port."));
    }
    Ok(trimmed)
}

impl NetworkSession {
    /// The endpoint the owner chose to exchange with.
    pub closed spec fn endpoint_text(&self) -> Seq<char> {
        self.endpoint@
    }

    /// When consent runs out.
    pub closed spec fn expires(&self) -> u64 {
        self.expires_ms
    }

    /// When the next exchange may start.
    pub closed spec fn next_attempt(&self) -> u64 {
        self.next_attempt_ms
    }

    /// Failed exchanges in a row.
    pub closed spec fn failures(&self) -> u32 {
        self.failures
    }

    /// Start a session with an endpoint `host:port`, due at once and
    /// expiring after the session limit.
    pub fn start(endpoint: &str, now_ms: u64) -> (r: Result<NetworkSession, String>)
        requires
            now_ms + SESSION_LIMIT_MS <= u64::MAX,
        ensures
            match endpoint_error(endpoint@) {
                Some(msg) => r matches Err(m) && m@ == msg,
                None => r matches Ok(s) && s.endpoint_text() == trim(endpoint@) && s.expires()
                    == now_ms + SESSION_LIMIT_MS && s.next_attempt() == now_ms && s.failures()
                    == 0,
            },
    {
        let trimmed = validate_endpoint(endpoint)?;
        Ok(
            NetworkSession {
                endpoint: trimmed,
                expires_ms: now_ms + SESSION_LIMIT_MS,
                next_attempt_ms: now_ms,
                failures: 0,
            },
        )
    }

    pub fn endpoint(&self) -> (e: &str)
        ensures
            e@ == self.endpoint_text(),
    {
        self.endpoint.as_str()
    }

    /// Consent has run out.
    pub fn expired(&self, now_ms: u64) -> (b: bool)
        ensures
            b == (now_ms >= self.expires()),
    {
        now_ms >= self.expires_ms
    }

    /// An exchange may start now: consent holds and the pause is over.
    pub fn due(&self, now_ms: u64) -> (b: bool)
        ensures
            b == (now_ms < self.expires() && now_ms >= self.next_attempt()),
    {
        !self.expired(now_ms) && now_ms >= self.next_attempt_ms
    }

    /// Record how an exchange ended: success resets the failures, failure
    /// backs off (thirty seconds, one minute, then two minutes at most).
    pub fn completed(&mut self, success: bool, now_ms: u64)
        requires
            now_ms + MAX_RETRY_MS <= u64::MAX,
        ensures
            final(self).endpoint_text() == old(self).endpoint_text(),
            final(self).expires() == old(self).expires(),
            final(self).failures() == if success {
                0
            } else if old(self).failures() == u32::MAX {
                u32::MAX
            } else {
                (old(self).failures() + 1) as u32
            },
            final(self).next_attempt() == now_ms + retry_delay_ms(final(self).failures()),
    {
        self.failures = if success {
            0
        } else {
            self.failures.saturating_add(1)
        };
        let delay: u64 = if self.failures == 0 {
            SYNC_INTERVAL_MS
        } else if self.failures == 1 {
            2 * SYNC_INTERVAL_MS
        } else {
            MAX_RETRY_MS
        };
        self.next_attempt_ms = now_ms + delay;
    }
}

proof fn lemma_last_colon(s: Seq<char>, i: int)
    requires
        -1 <= i < s.len(),
        i >= 0 ==> s[i] == ':',
        forall|j: int| i < j < s.len() ==> #[trigger] s[j] != ':',
    ensures
        last_colon(s) == if i >= 0 {
            Some(i as nat)
        } else {
            None::<nat>
        },
    decreases s.len(),
{
    if s.len() > 0 && i < s.len() - 1 {
        let p = s.drop_last();
        assert forall|j: int| i < j < p.len() implies #[trigger] p[j] != ':' by {
            assert(p[j] == s[j]);
        }
        if i >= 0 {
            assert(p[i] == s[i]);
        }
        lemma_last_colon(p, i);
    }
}

} // verus!
