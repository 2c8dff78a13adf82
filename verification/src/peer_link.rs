//! What one exchange with a peer reports: the outcome of a private-route
//! dial, and the ticket handshake that follows a protocol run.
use crate::records::{lemma_split_cons, lemma_split_none, split_on, split_ranges, sub_chars};
use crate::scalable_epoch_wire::{put_slice, string_from_utf8};
use crate::text::{chars_of, decimal, push_decimal, string_of};
use vstd::prelude::*;
use vstd::slice::{slice_subrange, slice_to_vec};
use vstd::string::StringExecFns;
use vstd::utf8::{decode_utf8, encode_utf8, valid_utf8};

verus! {

/// Outcome of one private-route dial.
#[derive(Debug, Clone, PartialEq, Eq)]
pub enum PrivateOutcome {
    /// Envelopes exchanged for the route.
    Synced { received: usize, accepted: usize },
    /// The peer does not hold this conversation; nothing was revealed.
    NotOnThisPeer,
}

/// Outcome of the ticket handshake after a protocol run.
#[derive(Debug, Default, Clone)]
pub struct TicketOutcome {
    /// Bytes this side attested to the peer.
    pub issued_bytes: u64,
    /// Rate this side agreed to pay the peer.
    pub rate_micro_per_mb: u64,
    /// Bytes the peer attested to this side, if its ticket verified.
    pub received_bytes: Option<u64>,
    pub note: Option<String>,
}

/// The report of a ticket handshake: what this side attested and at what
/// rate, what the peer attested (whole KB), and the note, if any, joined
/// by commas.
pub open spec fn ticket_summary(
    issued_bytes: u64,
    rate_micro_per_mb: u64,
    received_bytes: Option<u64>,
    note: Option<Seq<char>>,
) -> Seq<char> {
    let first = "attested "@ + decimal((issued_bytes / 1024) as nat) + " KB received at "@
        + decimal(rate_micro_per_mb as nat) + " µMINI/MB"@;
    let second = match received_bytes {
        Some(bytes) => "peer attested "@ + decimal((bytes / 1024) as nat) + " KB served"@,
        None => "no ticket from peer"@,
    };
    let both = first + ", "@ + second;
    match note {
        Some(n) => both + ", "@ + n,
        None => both,
    }
}

impl TicketOutcome {
    /// A one-line report of the handshake.
    pub fn summary(&self) -> (s: String)
        ensures
            s@ == ticket_summary(
                self.issued_bytes,
                self.rate_micro_per_mb,
                self.received_bytes,
                match self.note {
                    Some(n) => Some(n@),
                    None => None,
                },
            ),
    {
        let mut out = String::from_str("attested ");
        push_decimal(&mut out, (self.issued_bytes / 1024) as u128);
        out.append(" KB received at ");
        push_decimal(&mut out, self.rate_micro_per_mb as u128);
        out.append(" µMINI/MB");
        out.append(", ");
        match self.received_bytes {
            Some(bytes) => {
                out.append("peer attested ");
                push_decimal(&mut out, (bytes / 1024) as u128);
                out.append(" KB served");
            },
            None => {
                out.append("no ticket from peer");
            },
        }
        match &self.note {
            Some(n) => {
                out.append(", ");
                out.append(n.as_str());
            },
            None => {},
        }
        out
    }
}

/// The bounds on one whole exchange: a deadline on the caller's clock, a
/// byte budget for frames in either direction, and the frame bytes received
/// so far. A carrier asks it before every frame it sends or takes.
#[derive(Debug)]
pub struct ExchangeBudget {
    deadline_ms: u64,
    remaining_bytes: usize,
    received: u64,
}

impl ExchangeBudget {
    pub closed spec fn deadline(&self) -> u64 {
        self.deadline_ms
    }

    pub closed spec fn remaining(&self) -> usize {
        self.remaining_bytes
    }

    pub closed spec fn received(&self) -> u64 {
        self.received
    }

    /// Bounds that end at `deadline_ms` or after `byte_budget` bytes.
    pub fn new(deadline_ms: u64, byte_budget: usize) -> (b: ExchangeBudget)
        ensures
            b.deadline() == deadline_ms,
            b.remaining() == byte_budget,
            b.received() == 0,
    {
        ExchangeBudget { deadline_ms, remaining_bytes: byte_budget, received: 0 }
    }

    /// Frame bytes received so far.
    pub fn received_bytes(&self) -> (r: u64)
        ensures
            r == self.received(),
    {
        self.received
    }

    /// Take `bytes` from the budget: refused once the deadline has come, or
    /// when fewer bytes are left, and then nothing is taken.
    pub fn charge(&mut self, now_ms: u64, bytes: usize) -> (r: Result<(), String>)
        ensures
            final(self).deadline() == old(self).deadline(),
            final(self).received() == old(self).received(),
            now_ms >= old(self).deadline() ==> (r matches Err(e) && e@
                == "exchange deadline exceeded"@) && final(self).remaining()
                == old(self).remaining(),
            now_ms < old(self).deadline() && bytes > old(self).remaining() ==> (r matches Err(e)
                && e@ == "exchange byte budget exceeded"@) && final(self).remaining()
                == old(self).remaining(),
            now_ms < old(self).deadline() && bytes <= old(self).remaining() ==> r is Ok
                && final(self).remaining() == old(self).remaining() - bytes,
    {
        if now_ms >= self.deadline_ms {
            return Err(String::from_str("exchange deadline exceeded"));
        }
        if bytes > self.remaining_bytes {
            return Err(String::from_str("exchange byte budget exceeded"));
        }
        self.remaining_bytes = self.remaining_bytes - bytes;
        Ok(())
    }

    /// Take a received frame of `bytes` from the budget and count it,
    /// saturating at the largest count.
    pub fn receive(&mut self, now_ms: u64, bytes: usize) -> (r: Result<(), String>)
        ensures
            final(self).deadline() == old(self).deadline(),
            r is Ok <==> now_ms < old(self).deadline() && bytes <= old(self).remaining(),
            r is Ok ==> final(self).remaining() == old(self).remaining() - bytes
                && final(self).received() == if old(self).received() + bytes > u64::MAX {
                u64::MAX
            } else {
                (old(self).received() + bytes) as u64
            },
            r is Err ==> final(self).remaining() == old(self).remaining() && final(self).received()
                == old(self).received(),
    {
        self.charge(now_ms, bytes)?;
        self.received = self.received.saturating_add(bytes as u64);
        Ok(())
    }
}

/// The report of a public sync: what arrived and what became of it.
pub open spec fn public_summary_text(
    received: usize,
    accepted: usize,
    carriers: usize,
    unknown_author: usize,
    invalid: usize,
) -> Seq<char> {
    "received "@ + decimal(received as nat) + ", accepted "@ + decimal(accepted as nat)
        + ", identity carriers "@ + decimal(carriers as nat) + ", unknown authors "@ + decimal(
        unknown_author as nat,
    ) + ", invalid "@ + decimal(invalid as nat)
}

/// A one-line report of a public sync's counts.
pub fn public_summary(
    received: usize,
    accepted: usize,
    carriers: usize,
    unknown_author: usize,
    invalid: usize,
) -> (s: String)
    ensures
        s@ == public_summary_text(received, accepted, carriers, unknown_author, invalid),
{
    let mut out = String::from_str("received ");
    push_decimal(&mut out, received as u128);
    out.append(", accepted ");
    push_decimal(&mut out, accepted as u128);
    out.append(", identity carriers ");
    push_decimal(&mut out, carriers as u128);
    out.append(", unknown authors ");
    push_decimal(&mut out, unknown_author as u128);
    out.append(", invalid ");
    push_decimal(&mut out, invalid as u128);
    out
}

/// The intent byte of a public exchange.
pub const INTENT_PUBLIC: u8 = 1;

/// The intent byte of a private-route exchange.
pub const INTENT_PRIVATE: u8 = 2;

/// The intent byte of a search.
pub const INTENT_SEARCH: u8 = 3;

/// The intent byte of a fetch.
pub const INTENT_FETCH: u8 = 4;

/// The longest search query, in characters.
pub const MAX_INTENT_QUERY_CHARS: usize = 200;

/// The most objects one fetch names.
pub const MAX_FETCH_IDS: usize = 64;

/// What the dialing side wants from a connection; the private route is its
/// 32 opaque bytes and object ids are carried as text.
#[derive(Debug, Clone, PartialEq, Eq)]
pub enum Intent {
    Public,
    Private([u8; 32]),
    /// Ask the peer's catalog; the query rides in the intent frame.
    Search(String),
    /// Retrieve the closure of named posts.
    Fetch(Vec<String>),
}

/// An intent as plain values.
pub enum IntentView {
    Public,
    Private(Seq<u8>),
    Search(Seq<char>),
    Fetch(Seq<Seq<char>>),
}

/// The texts of a sequence of strings.
pub open spec fn id_texts(v: Seq<String>) -> Seq<Seq<char>> {
    Seq::new(v.len(), |i: int| v[i]@)
}

impl View for Intent {
    type V = IntentView;

    open spec fn view(&self) -> IntentView {
        match self {
            Intent::Public => IntentView::Public,
            Intent::Private(r) => IntentView::Private(r@),
            Intent::Search(q) => IntentView::Search(q@),
            Intent::Fetch(ids) => IntentView::Fetch(id_texts(ids@)),
        }
    }
}

/// The texts joined by commas.
pub open spec fn comma_joined(ids: Seq<Seq<char>>) -> Seq<char>
    decreases ids.len(),
{
    if ids.len() == 0 {
        Seq::empty()
    } else if ids.len() == 1 {
        ids[0]
    } else {
        ids[0] + seq![','] + comma_joined(ids.drop_first())
    }
}

/// The first 200 characters of a query.
pub open spec fn short_query(q: Seq<char>) -> Seq<char> {
    if q.len() <= MAX_INTENT_QUERY_CHARS {
        q
    } else {
        q.take(MAX_INTENT_QUERY_CHARS as int)
    }
}

/// An intent frame: the intent byte, then the route, the query's first
/// 200 characters in UTF-8, or the ids joined by commas in UTF-8.
pub open spec fn intent_frame(i: IntentView) -> Seq<u8> {
    match i {
        IntentView::Public => seq![INTENT_PUBLIC],
        IntentView::Private(r) => seq![INTENT_PRIVATE] + r,
        IntentView::Search(q) => seq![INTENT_SEARCH] + encode_utf8(short_query(q)),
        IntentView::Fetch(ids) => seq![INTENT_FETCH] + encode_utf8(comma_joined(ids)),
    }
}

/// The non-empty pieces, in order.
pub open spec fn nonempty_pieces(ps: Seq<Seq<char>>) -> Seq<Seq<char>>
    decreases ps.len(),
{
    if ps.len() == 0 {
        Seq::empty()
    } else if ps[0].len() == 0 {
        nonempty_pieces(ps.drop_first())
    } else {
        seq![ps[0]] + nonempty_pieces(ps.drop_first())
    }
}

/// The first 64 ids of a fetch text: its non-empty comma-separated pieces.
pub open spec fn fetch_ids(text: Seq<char>) -> Seq<Seq<char>> {
    let ids = nonempty_pieces(split_on(text, ','));
    if ids.len() <= MAX_FETCH_IDS {
        ids
    } else {
        ids.take(MAX_FETCH_IDS as int)
    }
}

/// What reading an intent frame gives.
pub open spec fn intent_decoding(b: Seq<u8>) -> Result<IntentView, Seq<char>> {
    if b.len() == 1 && b[0] == INTENT_PUBLIC {
        Ok(IntentView::Public)
    } else if b.len() == 33 && b[0] == INTENT_PRIVATE {
        Ok(IntentView::Private(b.skip(1)))
    } else if b.len() >= 1 && b[0] == INTENT_SEARCH {
        if !valid_utf8(b.skip(1)) {
            Err("search query is not UTF-8"@)
        } else if decode_utf8(b.skip(1)).len() > MAX_INTENT_QUERY_CHARS {
            Err("search query too long"@)
        } else {
            Ok(IntentView::Search(decode_utf8(b.skip(1))))
        }
    } else if b.len() >= 1 && b[0] == INTENT_FETCH {
        if !valid_utf8(b.skip(1)) {
            Err("fetch ids are not UTF-8"@)
        } else if fetch_ids(decode_utf8(b.skip(1))).len() == 0 {
            Err("fetch names no objects"@)
        } else {
            Ok(IntentView::Fetch(fetch_ids(decode_utf8(b.skip(1)))))
        }
    } else {
        Err("peer sent an unrecognized intent"@)
    }
}

proof fn lemma_nonempty_pieces_push(ps: Seq<Seq<char>>, p: Seq<char>)
    ensures
        nonempty_pieces(ps.push(p)) == nonempty_pieces(ps) + if p.len() == 0 {
            Seq::<Seq<char>>::empty()
        } else {
            seq![p]
        },
    decreases ps.len(),
{
    let q = ps.push(p);
    if ps.len() == 0 {
        assert(q[0] == p);
        assert(q.drop_first() =~= Seq::<Seq<char>>::empty());
        assert(nonempty_pieces(q.drop_first()) == Seq::<Seq<char>>::empty());
        if p.len() == 0 {
            assert(nonempty_pieces(q) =~= nonempty_pieces(ps));
        } else {
            assert(nonempty_pieces(q) =~= nonempty_pieces(ps) + seq![p]);
        }
    } else {
        lemma_nonempty_pieces_push(ps.drop_first(), p);
        assert(q[0] == ps[0]);
        assert(q.drop_first() =~= ps.drop_first().push(p));
        if p.len() == 0 {
            assert(nonempty_pieces(q) =~= nonempty_pieces(ps));
        } else {
            assert(nonempty_pieces(q) =~= nonempty_pieces(ps) + seq![p]);
        }
    }
}

proof fn lemma_comma_joined_push(ids: Seq<Seq<char>>, x: Seq<char>)
    ensures
        comma_joined(ids.push(x)) == if ids.len() == 0 {
            x
        } else {
            comma_joined(ids) + seq![','] + x
        },
    decreases ids.len(),
{
    let q = ids.push(x);
    if ids.len() == 0 {
        assert(q.len() == 1 && q[0] == x);
    } else if ids.len() == 1 {
        assert(q[0] == ids[0]);
        assert(q.drop_first() =~= seq![x]);
        assert(comma_joined(seq![x]) == x);
    } else {
        lemma_comma_joined_push(ids.drop_first(), x);
        assert(q[0] == ids[0]);
        assert(q.drop_first() =~= ids.drop_first().push(x));
        assert(comma_joined(q) =~= comma_joined(ids) + seq![','] + x);
    }
}

impl Intent {
    /// The intent frame: the intent byte, then what the intent carries.
    pub fn encode(&self) -> (b: Vec<u8>)
        ensures
            b@ == intent_frame(self@),
    {
        match self {
            Intent::Public => {
                let mut out: Vec<u8> = Vec::new();
                out.push(INTENT_PUBLIC);
                assert(out@ =~= seq![INTENT_PUBLIC]);
                out
            },
            Intent::Private(route) => {
                let mut out: Vec<u8> = Vec::new();
                out.push(INTENT_PRIVATE);
                put_slice(&mut out, route);
                out
            },
            Intent::Search(query) => {
                let chars = chars_of(query.as_str());
                let kept = if chars.len() <= MAX_INTENT_QUERY_CHARS {
                    string_of(chars.as_slice())
                } else {
                    string_of(slice_subrange(chars.as_slice(), 0, MAX_INTENT_QUERY_CHARS))
                };
                let mut out: Vec<u8> = Vec::new();
                out.push(INTENT_SEARCH);
                put_slice(&mut out, kept.as_str().as_bytes());
                out
            },
            Intent::Fetch(ids) => {
                let mut text = String::new();
                let mut i: usize = 0;
                assert(id_texts(ids@).take(0) =~= Seq::<Seq<char>>::empty());
                while i < ids.len()
                    invariant
                        i <= ids@.len(),
                        text@ == comma_joined(id_texts(ids@).take(i as int)),
                    decreases ids@.len() - i,
                {
                    let ghost before = id_texts(ids@).take(i as int);
                    if i > 0 {
                        text.append(",");
                    }
                    text.append(ids[i].as_str());
                    proof {
                        lemma_comma_joined_push(before, ids@[i as int]@);
                        assert(id_texts(ids@).take(i + 1) =~= before.push(ids@[i as int]@));
                        reveal_strlit(",");
                        assert(","@ =~= seq![',']);
                    }
                    i = i + 1;
                }
                assert(id_texts(ids@).take(i as int) =~= id_texts(ids@));
                let mut out: Vec<u8> = Vec::new();
                out.push(INTENT_FETCH);
                put_slice(&mut out, text.as_str().as_bytes());
                out
            },
        }
    }

    /// Read an intent frame.
    pub fn decode(bytes: &[u8]) -> (r: Result<Intent, String>)
        ensures
            match intent_decoding(bytes@) {
                Ok(i) => r matches Ok(v) && v@ == i,
                Err(m) => r matches Err(e) && e@ == m,
            },
    {
        let n = bytes.len();
        if n == 1 && bytes[0] == INTENT_PUBLIC {
            return Ok(Intent::Public);
        }
        if n == 33 && bytes[0] == INTENT_PRIVATE {
            let mut route = [0u8; 32];
            let mut k: usize = 0;
            while k < 32
                invariant
                    n == bytes@.len(),
                    n == 33,
                    k <= 32,
                    route@.len() == 32,
                    forall|j: int| 0 <= j < k ==> route@[j] == bytes@[j + 1],
                decreases 32 - k,
            {
                route[k] = bytes[k + 1];
                k = k + 1;
            }
            assert(route@ =~= bytes@.skip(1));
            return Ok(Intent::Private(route));
        }
        if n >= 1 && bytes[0] == INTENT_SEARCH {
            let rest = slice_to_vec(slice_subrange(bytes, 1, n));
            assert(rest@ =~= bytes@.skip(1));
            let query = match string_from_utf8(rest) {
                Some(q) => q,
                None => {
                    return Err(String::from_str("search query is not UTF-8"));
                },
            };
            let chars = chars_of(query.as_str());
            if chars.len() > MAX_INTENT_QUERY_CHARS {
                return Err(String::from_str("search query too long"));
            }
            return Ok(Intent::Search(query));
        }
        if n >= 1 && bytes[0] == INTENT_FETCH {
            let rest = slice_to_vec(slice_subrange(bytes, 1, n));
            assert(rest@ =~= bytes@.skip(1));
            let text = match string_from_utf8(rest) {
                Some(t) => t,
                None => {
                    return Err(String::from_str("fetch ids are not UTF-8"));
                },
            };
            let chars = chars_of(text.as_str());
            let pieces = split_ranges(&chars, 0, chars.len(), ',');
            let ghost parts = split_on(chars@, ',');
            proof {
                assert(chars@.subrange(0, chars@.len() as int) =~= chars@);
            }
            let mut ids: Vec<String> = Vec::new();
            let mut k: usize = 0;
            assert(parts.take(0) =~= Seq::<Seq<char>>::empty());
            while k < pieces.len() && ids.len() < MAX_FETCH_IDS
                invariant
                    k <= pieces@.len(),
                    pieces@.len() == parts.len(),
                    parts == split_on(chars@, ','),
                    forall|j: int|
                        0 <= j < pieces@.len() ==> (#[trigger] pieces@[j]).0 <= pieces@[j].1
                            <= chars@.len() && chars@.subrange(
                            pieces@[j].0 as int,
                            pieces@[j].1 as int,
                        ) == parts[j],
                    id_texts(ids@) == nonempty_pieces(parts.take(k as int)),
                    ids@.len() <= MAX_FETCH_IDS,
                decreases pieces@.len() - k,
            {
                let (a, b) = pieces[k];
                proof {
                    assert(pieces@[k as int].0 <= pieces@[k as int].1 <= chars@.len());
                    assert(parts.take(k + 1) =~= parts.take(k as int).push(parts[k as int]));
                    lemma_nonempty_pieces_push(parts.take(k as int), parts[k as int]);
                }
                if a < b {
                    let ghost before = ids@;
                    ids.push(string_of(sub_chars(&chars, a, b).as_slice()));
                    assert(id_texts(ids@) =~= id_texts(before) + seq![parts[k as int]]);
                } else {
                    assert(parts[k as int].len() == 0);
                }
                k = k + 1;
            }
            proof {
                lemma_nonempty_pieces_prefix(parts, k as int);
                let all = nonempty_pieces(parts);
                if k < pieces.len() {
                    assert(ids@.len() == MAX_FETCH_IDS);
                    assert(all.take(MAX_FETCH_IDS as int) == id_texts(ids@));
                } else {
                    assert(parts.take(k as int) =~= parts);
                    assert(all == id_texts(ids@));
                }
                assert(fetch_ids(chars@) == id_texts(ids@));
            }
            if ids.len() == 0 {
                return Err(String::from_str("fetch names no objects"));
            }
            return Ok(Intent::Fetch(ids));
        }
        Err(String::from_str("peer sent an unrecognized intent"))
    }
}

/// The non-empty pieces of a prefix are a prefix of the non-empty pieces.
proof fn lemma_nonempty_pieces_prefix(ps: Seq<Seq<char>>, k: int)
    requires
        0 <= k <= ps.len(),
    ensures
        nonempty_pieces(ps.take(k)).len() <= nonempty_pieces(ps).len(),
        nonempty_pieces(ps).take(nonempty_pieces(ps.take(k)).len() as int) == nonempty_pieces(ps.take(k)),
    decreases ps.len() - k,
{
    if k < ps.len() {
        lemma_nonempty_pieces_prefix(ps, k + 1);
        assert(ps.take(k + 1) =~= ps.take(k).push(ps[k]));
        lemma_nonempty_pieces_push(ps.take(k), ps[k]);
        let small = nonempty_pieces(ps.take(k));
        let big = nonempty_pieces(ps.take(k + 1));
        let all = nonempty_pieces(ps);
        assert(all.take(small.len() as int) =~= big.take(small.len() as int));
        assert(big.take(small.len() as int) =~= small);
    } else {
        assert(ps.take(k) =~= ps);
        assert(nonempty_pieces(ps).take(nonempty_pieces(ps).len() as int) =~= nonempty_pieces(ps));
    }
}

/// An intent a frame carries unchanged: a 32-byte route, a query of at
/// most 200 characters, or one to 64 non-empty ids without commas.
pub open spec fn intent_sendable(i: IntentView) -> bool {
    match i {
        IntentView::Public => true,
        IntentView::Private(r) => r.len() == 32,
        IntentView::Search(q) => q.len() <= MAX_INTENT_QUERY_CHARS,
        IntentView::Fetch(ids) => 1 <= ids.len() <= MAX_FETCH_IDS && forall|k: int|
            0 <= k < ids.len() ==> (#[trigger] ids[k]).len() > 0 && !ids[k].contains(','),
    }
}

/// An intent frame read back gives the intent that was sent.
pub proof fn lemma_intent_round_trip(i: IntentView)
    requires
        intent_sendable(i),
    ensures
        intent_decoding(intent_frame(i)) == Ok::<IntentView, Seq<char>>(i),
{
    let b = intent_frame(i);
    match i {
        IntentView::Public => {},
        IntentView::Private(r) => {
            assert(b.skip(1) =~= r);
        },
        IntentView::Search(q) => {
            assert(short_query(q) == q);
            assert(b.skip(1) =~= encode_utf8(q));
            vstd::utf8::encode_utf8_valid_utf8(q);
            vstd::utf8::encode_utf8_decode_utf8(q);
        },
        IntentView::Fetch(ids) => {
            let text = comma_joined(ids);
            assert(b.skip(1) =~= encode_utf8(text));
            vstd::utf8::encode_utf8_valid_utf8(text);
            vstd::utf8::encode_utf8_decode_utf8(text);
            lemma_split_joined(ids);
            lemma_nonempty_all(ids);
            assert(fetch_ids(text) == ids);
        },
    }
}

proof fn lemma_split_joined(ids: Seq<Seq<char>>)
    requires
        ids.len() >= 1,
        forall|k: int| 0 <= k < ids.len() ==> !(#[trigger] ids[k]).contains(','),
    ensures
        split_on(comma_joined(ids), ',') == ids,
    decreases ids.len(),
{
    assert(!ids[0].contains(','));
    if ids.len() == 1 {
        lemma_split_none(ids[0], ',');
        assert(seq![ids[0]] =~= ids);
    } else {
        let rest = ids.drop_first();
        assert forall|k: int| 0 <= k < rest.len() implies !(#[trigger] rest[k]).contains(',') by {
            assert(rest[k] == ids[k + 1]);
        }
        lemma_split_joined(rest);
        lemma_split_cons(ids[0], ',', comma_joined(rest));
        assert(seq![ids[0]] + rest =~= ids);
    }
}

proof fn lemma_nonempty_all(ps: Seq<Seq<char>>)
    requires
        forall|k: int| 0 <= k < ps.len() ==> (#[trigger] ps[k]).len() > 0,
    ensures
        nonempty_pieces(ps) == ps,
    decreases ps.len(),
{
    if ps.len() > 0 {
        assert(ps[0].len() > 0);
        let rest = ps.drop_first();
        assert forall|k: int| 0 <= k < rest.len() implies (#[trigger] rest[k]).len() > 0 by {
            assert(rest[k] == ps[k + 1]);
        }
        lemma_nonempty_all(rest);
        assert(seq![ps[0]] + rest =~= ps);
    }
}

} // verus!
