//! Network-wide search over the desktop link: the wire form of the result
//! records a peer answers a query with. Results are hints from that peer,
//! not verified objects; object ids and DIDs are carried as text and not
//! parsed here.
//!
//! A record is ten fields: seven length-prefixed UTF-8 strings (two bytes
//! of big-endian length, at most 65535 bytes kept), then two big-endian
//! `u64`s, then one more string. A reply is a two-byte count and that many
//! records, and nothing after them.
use crate::scalable_epoch_wire::{be64, be64_value, lemma_be64_round_trip, put_slice, put_u64, read_u64, string_from_utf8};
use crate::text::{chars_of, string_of};
use vstd::prelude::*;
use vstd::slice::{slice_subrange, slice_to_vec};
use vstd::string::StringExecFns;
use vstd::utf8::{decode_utf8, encode_utf8, encode_utf8_decode_utf8, encode_utf8_valid_utf8, valid_utf8};

verus! {

/// The longest query, in characters.
pub const MAX_QUERY_BYTES: usize = 200;

/// The most results one reply carries.
pub const MAX_RESULTS: usize = 50;

/// Objects one fetch may select.
pub const MAX_FETCH_OBJECTS: usize = 4000;

/// Bytes one fetch may select.
pub const MAX_FETCH_BYTES: usize = 503_316_480;

/// One search hit as a peer reported it.
#[derive(Debug, Clone, PartialEq, Eq)]
pub struct RemoteResult {
    pub post: String,
    pub media: String,
    pub title: String,
    pub description: String,
    pub author_name: String,
    pub author_did: String,
    pub kind: String,
    pub bytes: u64,
    pub timestamp_ms: u64,
    /// Endpoint of the peer that actually holds it when the answering peer
    /// forwarded the search; empty when the answering peer holds it.
    pub via: String,
}

/// A search hit as text and numbers.
#[verifier::ext_equal]
pub struct ResultView {
    pub post: Seq<char>,
    pub media: Seq<char>,
    pub title: Seq<char>,
    pub description: Seq<char>,
    pub author_name: Seq<char>,
    pub author_did: Seq<char>,
    pub kind: Seq<char>,
    pub bytes: u64,
    pub timestamp_ms: u64,
    pub via: Seq<char>,
}

impl View for RemoteResult {
    type V = ResultView;

    open spec fn view(&self) -> ResultView {
        ResultView {
            post: self.post@,
            media: self.media@,
            title: self.title@,
            description: self.description@,
            author_name: self.author_name@,
            author_did: self.author_did@,
            kind: self.kind@,
            bytes: self.bytes,
            timestamp_ms: self.timestamp_ms,
            via: self.via@,
        }
    }
}

/// The hits as text and numbers.
pub open spec fn result_views(rs: Seq<RemoteResult>) -> Seq<ResultView> {
    Seq::new(rs.len(), |i: int| rs[i]@)
}

/// Big-endian bytes of a length below 65536.
pub open spec fn be16(n: nat) -> Seq<u8> {
    seq![(n / 256) as u8, (n % 256) as u8]
}

/// A string on the wire: its UTF-8 length (at most 65535) in two bytes,
/// then that many of its bytes.
pub open spec fn field_bytes(s: Seq<char>) -> Seq<u8> {
    let b = encode_utf8(s);
    let n = if b.len() <= 65535 {
        b.len()
    } else {
        65535
    };
    be16(n) + b.take(n as int)
}

/// A description as sent: its first 240 characters.
pub open spec fn short_description(d: Seq<char>) -> Seq<char> {
    if d.len() <= 240 {
        d
    } else {
        d.take(240)
    }
}

/// A record on the wire.
#[verifier::opaque]
pub open spec fn record_bytes(r: ResultView) -> Seq<u8> {
    field_bytes(r.post) + field_bytes(r.media) + field_bytes(r.title) + field_bytes(
        short_description(r.description),
    ) + field_bytes(r.author_name) + field_bytes(r.author_did) + field_bytes(r.kind) + be64(
        r.bytes,
    ) + be64(r.timestamp_ms) + field_bytes(r.via)
}

/// Records one after another.
pub open spec fn records_bytes(rs: Seq<ResultView>) -> Seq<u8>
    decreases rs.len(),
{
    if rs.len() == 0 {
        Seq::empty()
    } else {
        record_bytes(rs[0]) + records_bytes(rs.drop_first())
    }
}

/// How many of `n` results a reply carries.
pub open spec fn sent_count(n: nat) -> nat {
    if n <= MAX_RESULTS {
        n
    } else {
        MAX_RESULTS as nat
    }
}

/// A reply on the wire: the count, then the first fifty records at most.
pub open spec fn results_bytes(rs: Seq<ResultView>) -> Seq<u8> {
    let n = sent_count(rs.len());
    be16(n) + records_bytes(rs.take(n as int))
}

/// The string at `pos` and where the next field starts.
pub open spec fn field_at(b: Seq<u8>, pos: nat) -> Result<(Seq<char>, nat), Seq<char>> {
    if pos + 2 > b.len() {
        Err("truncated"@)
    } else {
        let end = pos + 2 + b[pos as int] * 256 + b[pos + 1 as int];
        if end > b.len() {
            Err("truncated"@)
        } else if !valid_utf8(b.subrange(pos + 2 as int, end)) {
            Err("not UTF-8"@)
        } else {
            Ok((decode_utf8(b.subrange(pos + 2 as int, end)), end as nat))
        }
    }
}

/// The `u64` at `pos` and where the next field starts.
pub open spec fn u64_at(b: Seq<u8>, pos: nat) -> Result<(u64, nat), Seq<char>> {
    if pos + 8 > b.len() {
        Err("truncated"@)
    } else {
        Ok((be64_value(b.subrange(pos as int, pos + 8 as int)), pos + 8))
    }
}

/// The record at `pos` and where the next one starts; the first field that
/// cannot be read refuses it.
#[verifier::opaque]
pub open spec fn record_at(b: Seq<u8>, pos: nat) -> Result<(ResultView, nat), Seq<char>> {
    match field_at(b, pos) {
        Err(e) => Err(e),
        Ok((post, p1)) => match field_at(b, p1) {
            Err(e) => Err(e),
            Ok((media, p2)) => match field_at(b, p2) {
                Err(e) => Err(e),
                Ok((title, p3)) => match field_at(b, p3) {
                    Err(e) => Err(e),
                    Ok((description, p4)) => match field_at(b, p4) {
                        Err(e) => Err(e),
                        Ok((author_name, p5)) => match field_at(b, p5) {
                            Err(e) => Err(e),
                            Ok((author_did, p6)) => match field_at(b, p6) {
                                Err(e) => Err(e),
                                Ok((kind, p7)) => match u64_at(b, p7) {
                                    Err(e) => Err(e),
                                    Ok((bytes, p8)) => match u64_at(b, p8) {
                                        Err(e) => Err(e),
                                        Ok((timestamp_ms, p9)) => match field_at(b, p9) {
                                            Err(e) => Err(e),
                                            Ok((via, p10)) => Ok(
                                                (
                                                    ResultView {
                                                        post,
                                                        media,
                                                        title,
                                                        description,
                                                        author_name,
                                                        author_did,
                                                        kind,
                                                        bytes,
                                                        timestamp_ms,
                                                        via,
                                                    },
                                                    p10,
                                                ),
                                            ),
                                        },
                                    },
                                },
                            },
                        },
                    },
                },
            },
        },
    }
}

/// `done` before the records of an outcome.
pub open spec fn after(done: Seq<ResultView>, r: Result<(Seq<ResultView>, nat), Seq<char>>) -> Result<
    (Seq<ResultView>, nat),
    Seq<char>,
> {
    match r {
        Ok((rs, q)) => Ok((done + rs, q)),
        Err(e) => Err(e),
    }
}

/// `k` records from `pos` on, and where they end.
pub open spec fn records_at(b: Seq<u8>, pos: nat, k: nat) -> Result<(Seq<ResultView>, nat), Seq<char>>
    decreases k,
{
    if k == 0 {
        Ok((Seq::empty(), pos))
    } else {
        match record_at(b, pos) {
            Err(e) => Err(e),
            Ok((r, p)) => after(seq![r], records_at(b, p, (k - 1) as nat)),
        }
    }
}

/// What reading a reply gives: the count, at most fifty, then exactly that
/// many records and nothing more.
pub open spec fn results_decoding(b: Seq<u8>) -> Result<Seq<ResultView>, Seq<char>> {
    if b.len() < 2 {
        Err("truncated"@)
    } else {
        let count = (b[0] * 256 + b[1]) as nat;
        if count > MAX_RESULTS {
            Err("too many results"@)
        } else {
            match records_at(b, 2, count) {
                Err(e) => Err(e),
                Ok((rs, p)) => if p != b.len() {
                    Err("trailing bytes"@)
                } else {
                    Ok(rs)
                },
            }
        }
    }
}

/// Appends a string as a length-prefixed field.
fn put_field(out: &mut Vec<u8>, s: &str)
    ensures
        final(out)@ == old(out)@ + field_bytes(s@),
{
    let bytes = s.as_bytes();
    let n: usize = if bytes.len() <= 65535 {
        bytes.len()
    } else {
        65535
    };
    out.push((n / 256) as u8);
    out.push((n % 256) as u8);
    let kept = slice_subrange(bytes, 0, n);
    put_slice(out, kept);
    assert(out@ =~= old(out)@ + field_bytes(s@));
}

/// The first 240 characters of a description.
fn shorten(d: &str) -> (s: String)
    ensures
        s@ == short_description(d@),
{
    let chars = chars_of(d);
    if chars.len() <= 240 {
        string_of(chars.as_slice())
    } else {
        let head = slice_subrange(chars.as_slice(), 0, 240);
        string_of(head)
    }
}

proof fn lemma_records_bytes_push(rs: Seq<ResultView>, r: ResultView)
    ensures
        records_bytes(rs.push(r)) == records_bytes(rs) + record_bytes(r),
    decreases rs.len(),
{
    let q = rs.push(r);
    if rs.len() == 0 {
        assert(q[0] == r);
        assert(q.drop_first() =~= Seq::<ResultView>::empty());
        assert(records_bytes(q.drop_first()) == Seq::<u8>::empty());
        assert(records_bytes(q) =~= records_bytes(rs) + record_bytes(r));
    } else {
        lemma_records_bytes_push(rs.drop_first(), r);
        assert(q[0] == rs[0]);
        assert(q.drop_first() =~= rs.drop_first().push(r));
        assert(records_bytes(q) == record_bytes(rs[0]) + records_bytes(rs.drop_first().push(r)));
        assert(records_bytes(q) =~= records_bytes(rs) + record_bytes(r));
    }
}

/// Appends one record.
fn put_record(out: &mut Vec<u8>, r: &RemoteResult)
    ensures
        final(out)@ == old(out)@ + record_bytes(r@),
{
    put_field(out, r.post.as_str());
    put_field(out, r.media.as_str());
    put_field(out, r.title.as_str());
    let short = shorten(r.description.as_str());
    put_field(out, short.as_str());
    put_field(out, r.author_name.as_str());
    put_field(out, r.author_did.as_str());
    put_field(out, r.kind.as_str());
    put_u64(out, r.bytes);
    put_u64(out, r.timestamp_ms);
    put_field(out, r.via.as_str());
    proof {
        reveal(record_bytes);
    }
    assert(out@ =~= old(out)@ + record_bytes(r@));
}

/// A reply carrying the first fifty results at most.
pub fn encode_results(results: &[RemoteResult]) -> (out: Vec<u8>)
    ensures
        out@ == results_bytes(result_views(results@)),
{
    let ghost views = result_views(results@);
    let count: usize = if results.len() <= MAX_RESULTS {
        results.len()
    } else {
        MAX_RESULTS
    };
    let mut out: Vec<u8> = Vec::new();
    out.push((count / 256) as u8);
    out.push((count % 256) as u8);
    let ghost head = out@;
    assert(head =~= be16(sent_count(views.len())));
    let mut i: usize = 0;
    assert(views.take(0) =~= Seq::<ResultView>::empty());
    while i < count
        invariant
            i <= count <= results@.len(),
            count == sent_count(views.len()),
            views == result_views(results@),
            out@ == head + records_bytes(views.take(i as int)),
        decreases count - i,
    {
        let ghost before = out@;
        put_record(&mut out, &results[i]);
        proof {
            assert(views[i as int] == results@[i as int]@);
            lemma_records_bytes_push(views.take(i as int), views[i as int]);
            assert(views.take(i + 1) =~= views.take(i as int).push(views[i as int]));
        }
        i = i + 1;
    }
    out
}

/// Reads the string field at `pos`.
fn read_field(b: &[u8], pos: usize) -> (r: Result<(String, usize), String>)
    requires
        pos <= b@.len(),
    ensures
        match field_at(b@, pos as nat) {
            Ok((s, p)) => r matches Ok((t, q)) && t@ == s && q == p,
            Err(m) => r matches Err(e) && e@ == m,
        },
{
    if b.len() - pos < 2 {
        return Err(String::from_str("truncated"));
    }
    let n = (b[pos] as usize) * 256 + (b[pos + 1] as usize);
    if b.len() - (pos + 2) < n {
        return Err(String::from_str("truncated"));
    }
    let end = pos + 2 + n;
    let raw = slice_to_vec(slice_subrange(b, pos + 2, end));
    match string_from_utf8(raw) {
        Some(s) => Ok((s, end)),
        None => Err(String::from_str("not UTF-8")),
    }
}

/// Reads the `u64` at `pos`.
fn read_u64_at(b: &[u8], pos: usize) -> (r: Result<(u64, usize), String>)
    requires
        pos <= b@.len(),
    ensures
        match u64_at(b@, pos as nat) {
            Ok((v, p)) => r matches Ok((w, q)) && w == v && q == p,
            Err(m) => r matches Err(e) && e@ == m,
        },
{
    if b.len() - pos < 8 {
        return Err(String::from_str("truncated"));
    }
    let v = read_u64(slice_subrange(b, pos, pos + 8));
    Ok((v, pos + 8))
}

/// Reads the record at `pos`.
fn read_record(b: &[u8], pos: usize) -> (r: Result<(RemoteResult, usize), String>)
    requires
        pos <= b@.len(),
    ensures
        match record_at(b@, pos as nat) {
            Ok((v, p)) => r matches Ok((w, q)) && w@ == v && q == p,
            Err(m) => r matches Err(e) && e@ == m,
        },
        r matches Ok((_, q)) ==> q <= b@.len(),
{
    proof {
        reveal(record_at);
    }
    let (post, p1) = read_field(b, pos)?;
    let (media, p2) = read_field(b, p1)?;
    let (title, p3) = read_field(b, p2)?;
    let (description, p4) = read_field(b, p3)?;
    let (author_name, p5) = read_field(b, p4)?;
    let (author_did, p6) = read_field(b, p5)?;
    let (kind, p7) = read_field(b, p6)?;
    let (bytes, p8) = read_u64_at(b, p7)?;
    let (timestamp_ms, p9) = read_u64_at(b, p8)?;
    let (via, p10) = read_field(b, p9)?;
    let r = RemoteResult {
        post,
        media,
        title,
        description,
        author_name,
        author_did,
        kind,
        bytes,
        timestamp_ms,
        via,
    };
    proof {
        reveal(record_at);
    }
    assert(r@ =~= record_at(b@, pos as nat)->Ok_0.0);
    Ok((r, p10))
}

/// Read a reply. Strict: a count above fifty, a field that runs past the
/// end or is not UTF-8, or bytes after the last record refuse it.
pub fn decode_results(bytes: &[u8]) -> (r: Result<Vec<RemoteResult>, String>)
    ensures
        match results_decoding(bytes@) {
            Ok(rs) => r matches Ok(v) && result_views(v@) == rs,
            Err(m) => r matches Err(e) && e@ == m,
        },
{
    if bytes.len() < 2 {
        return Err(String::from_str("truncated"));
    }
    let count = (bytes[0] as usize) * 256 + (bytes[1] as usize);
    if count > MAX_RESULTS {
        return Err(String::from_str("too many results"));
    }
    let mut out: Vec<RemoteResult> = Vec::new();
    let mut pos: usize = 2;
    let mut i: usize = 0;
    assert(result_views(out@) =~= Seq::<ResultView>::empty());
    assert(after(Seq::empty(), records_at(bytes@, 2, count as nat)) =~= records_at(
        bytes@,
        2,
        count as nat,
    )) by {
        match records_at(bytes@, 2, count as nat) {
            Ok((rs, q)) => {
                assert(Seq::<ResultView>::empty() + rs =~= rs);
            },
            Err(_) => {},
        }
    }
    while i < count
        invariant
            i <= count <= MAX_RESULTS,
            bytes@.len() >= 2,
            count == bytes@[0] * 256 + bytes@[1],
            pos <= bytes@.len(),
            records_at(bytes@, 2, count as nat) == after(
                result_views(out@),
                records_at(bytes@, pos as nat, (count - i) as nat),
            ),
        decreases count - i,
    {
        let ghost done = result_views(out@);
        let (r, next) = match read_record(bytes, pos) {
            Ok(v) => v,
            Err(e) => {
                return Err(e);
            },
        };
        proof {
            let rest = records_at(bytes@, next as nat, (count - i - 1) as nat);
            assert(records_at(bytes@, pos as nat, (count - i) as nat) == after(seq![r@], rest));
            match rest {
                Ok((rs, q)) => {
                    assert(done + (seq![r@] + rs) =~= done.push(r@) + rs);
                },
                Err(_) => {},
            }
        }
        out.push(r);
        assert(result_views(out@) =~= done.push(r@));
        pos = next;
        i = i + 1;
    }
    proof {
        assert(records_at(bytes@, pos as nat, 0) == Ok::<(Seq<ResultView>, nat), Seq<char>>(
            (Seq::empty(), pos as nat),
        ));
        assert(result_views(out@) + Seq::<ResultView>::empty() =~= result_views(out@));
    }
    if pos != bytes.len() {
        return Err(String::from_str("trailing bytes"));
    }
    Ok(out)
}

/// The texts of a list of strings.
pub open spec fn texts(v: Seq<String>) -> Seq<Seq<char>> {
    v.map_values(|s: String| s@)
}

/// The objects that one fetch has selected so far, in the order a partial
/// delivery still verifies in: at most `MAX_FETCH_OBJECTS` of them, each id
/// once, and at most `MAX_FETCH_BYTES` in all. Object ids are carried as
/// text; the store that says how large each object is stays outside.
pub struct FetchSelection {
    selected: Vec<String>,
    seen: Vec<String>,
    bytes_left: usize,
}

impl FetchSelection {
    /// The ids selected, in order.
    pub closed spec fn chosen(&self) -> Seq<Seq<char>> {
        texts(self.selected@)
    }

    /// Every id offered while there was room, taken or not.
    pub closed spec fn offered(&self) -> Set<Seq<char>> {
        texts(self.seen@).to_set()
    }

    /// The bytes still allowed.
    pub closed spec fn budget_left(&self) -> nat {
        self.bytes_left as nat
    }

    /// No id is selected twice, every selected id was offered, and neither
    /// budget is exceeded.
    pub open spec fn well_formed(&self) -> bool {
        &&& self.chosen().no_duplicates()
        &&& forall|i: int|
            0 <= i < self.chosen().len() ==> self.offered().contains(#[trigger] self.chosen()[i])
        &&& self.chosen().len() <= MAX_FETCH_OBJECTS
        &&& self.budget_left() <= MAX_FETCH_BYTES
    }

    /// An empty selection with the whole byte budget.
    pub fn new() -> (s: FetchSelection)
        ensures
            s.chosen() == Seq::<Seq<char>>::empty(),
            s.offered() == Set::<Seq<char>>::empty(),
            s.budget_left() == MAX_FETCH_BYTES,
            s.well_formed(),
    {
        let s = FetchSelection { selected: Vec::new(), seen: Vec::new(), bytes_left: MAX_FETCH_BYTES };
        assert(texts(s.seen@).to_set() =~= Set::<Seq<char>>::empty());
        s
    }

    /// The selection holds as many objects as one fetch may.
    pub fn is_full(&self) -> (b: bool)
        ensures
            b == (self.chosen().len() >= MAX_FETCH_OBJECTS),
    {
        self.selected.len() >= MAX_FETCH_OBJECTS
    }

    fn was_offered(&self, id: &String) -> (b: bool)
        ensures
            b == self.offered().contains(id@),
    {
        let mut i: usize = 0;
        while i < self.seen.len()
            invariant
                i <= self.seen@.len(),
                forall|j: int| 0 <= j < i ==> self.seen@[j]@ != id@,
            decreases self.seen@.len() - i,
        {
            if self.seen[i] == *id {
                assert(texts(self.seen@)[i as int] == id@);
                return true;
            }
            i = i + 1;
        }
        assert(!texts(self.seen@).contains(id@)) by {
            if texts(self.seen@).contains(id@) {
                let j = choose|j: int| 0 <= j < texts(self.seen@).len() && texts(self.seen@)[j]
                    == id@;
                assert(self.seen@[j]@ == id@);
            }
        }
        false
    }

    /// Offer one object of `size` bytes (`None` where the store does not
    /// hold it). When the selection is full, or the id was offered before,
    /// nothing changes and it is not taken. Otherwise the id counts as
    /// offered, and it is taken, at the end, exactly when its size is known
    /// and fits the bytes left, which then shrink by it.
    pub fn offer(&mut self, id: String, size: Option<usize>) -> (taken: bool)
        ensures
            old(self).chosen().len() >= MAX_FETCH_OBJECTS || old(self).offered().contains(id@) ==> (
            !taken && final(self).chosen() == old(self).chosen() && final(self).offered()
                == old(self).offered() && final(self).budget_left() == old(self).budget_left()),
            old(self).chosen().len() < MAX_FETCH_OBJECTS && !old(self).offered().contains(id@) ==> (
            final(self).offered() == old(self).offered().insert(id@) && taken == (size matches Some(
                n,
            ) && n <= old(self).budget_left()) && (taken ==> final(self).chosen() == old(
                self,
            ).chosen().push(id@) && final(self).budget_left() == old(self).budget_left()
                - size->Some_0) && (!taken ==> final(self).chosen() == old(self).chosen()
                && final(self).budget_left() == old(self).budget_left())),
            old(self).well_formed() ==> final(self).well_formed(),
    {
        if self.selected.len() >= MAX_FETCH_OBJECTS || self.was_offered(&id) {
            return false;
        }
        let ghost before_seen = self.seen@;
        let ghost before_selected = self.selected@;
        self.seen.push(id.clone());
        proof {
            let t0 = texts(before_seen);
            let t1 = texts(self.seen@);
            assert(t1 =~= t0.push(id@));
            assert forall|a: Seq<char>| #[trigger] t1.to_set().contains(a) == t0.to_set().insert(
                id@,
            ).contains(a) by {
                if t0.contains(a) {
                    let j = choose|j: int| 0 <= j < t0.len() && t0[j] == a;
                    assert(t1[j] == a);
                }
                if a == id@ {
                    assert(t1[t0.len() as int] == a);
                }
                if t1.contains(a) {
                    let j = choose|j: int| 0 <= j < t1.len() && t1[j] == a;
                    if j < t0.len() {
                        assert(t0[j] == a);
                    }
                }
            }
            assert(t1.to_set() =~= t0.to_set().insert(id@));
        }
        let n = match size {
            Some(n) => n,
            None => {
                return false;
            },
        };
        if n > self.bytes_left {
            return false;
        }
        self.bytes_left = self.bytes_left - n;
        self.selected.push(id);
        proof {
            assert(texts(self.selected@) =~= texts(before_selected).push(id@));
            if old(self).well_formed() {
                assert(!texts(before_selected).contains(id@));
            }
        }
        true
    }

    /// The ids selected, in order.
    pub fn into_ids(self) -> (ids: Vec<String>)
        ensures
            texts(ids@) == self.chosen(),
    {
        self.selected
    }
}

/// A string that travels whole: at most 65535 bytes of UTF-8.
pub open spec fn fits_field(s: Seq<char>) -> bool {
    encode_utf8(s).len() <= 65535
}

/// A hit that a reply carries unchanged: every string fits its field and
/// the description is at most 240 characters.
pub open spec fn sendable(r: ResultView) -> bool {
    &&& fits_field(r.post)
    &&& fits_field(r.media)
    &&& fits_field(r.title)
    &&& fits_field(r.description)
    &&& r.description.len() <= 240
    &&& fits_field(r.author_name)
    &&& fits_field(r.author_did)
    &&& fits_field(r.kind)
    &&& fits_field(r.via)
}

/// A reply read back gives the hits that were sent, when there are at most
/// fifty and each travels unchanged.
pub proof fn lemma_results_round_trip(rs: Seq<ResultView>)
    requires
        rs.len() <= MAX_RESULTS,
        forall|i: int| 0 <= i < rs.len() ==> sendable(#[trigger] rs[i]),
    ensures
        results_decoding(results_bytes(rs)) == Ok::<Seq<ResultView>, Seq<char>>(rs),
{
    let b = results_bytes(rs);
    let n = rs.len();
    assert(rs.take(n as int) =~= rs);
    let body = records_bytes(rs);
    assert(b =~= be16(n) + body);
    assert(b[0] * 256 + b[1] == n);
    assert(b.subrange(2, 2 + body.len() as int) =~= body);
    lemma_records_at(b, 2, rs);
}

proof fn lemma_split_sub(b: Seq<u8>, pos: int, x: Seq<u8>, y: Seq<u8>)
    requires
        0 <= pos,
        pos + x.len() + y.len() <= b.len(),
        b.subrange(pos, pos + x.len() + y.len()) == x + y,
    ensures
        b.subrange(pos, pos + x.len()) == x,
        b.subrange(pos + x.len(), pos + x.len() + y.len()) == y,
{
    assert forall|j: int| 0 <= j < x.len() implies #[trigger] b.subrange(pos, pos + x.len())[j]
        == x[j] by {
        assert(b.subrange(pos, pos + x.len() + y.len())[j] == (x + y)[j]);
    }
    assert forall|j: int| 0 <= j < y.len() implies #[trigger] b.subrange(
        pos + x.len(),
        pos + x.len() + y.len(),
    )[j] == y[j] by {
        let k = x.len() + j;
        assert(b.subrange(pos + x.len(), pos + x.len() + y.len())[j] == b[pos + k]);
        assert(b.subrange(pos, pos + x.len() + y.len())[k] == b[pos + k]);
        assert(b.subrange(pos, pos + x.len() + y.len())[k] == (x + y)[k]);
        assert((x + y)[k] == y[j]);
    }
    assert(b.subrange(pos, pos + x.len()) =~= x);
    assert(b.subrange(pos + x.len(), pos + x.len() + y.len()) =~= y);
}

proof fn lemma_field_at(b: Seq<u8>, pos: int, s: Seq<char>)
    requires
        0 <= pos,
        fits_field(s),
        pos + field_bytes(s).len() <= b.len(),
        b.subrange(pos, pos + field_bytes(s).len()) == field_bytes(s),
    ensures
        field_at(b, pos as nat) == Ok::<(Seq<char>, nat), Seq<char>>(
            (s, (pos + field_bytes(s).len()) as nat),
        ),
{
    let e = encode_utf8(s);
    let n = e.len();
    let f = field_bytes(s);
    assert(e.take(n as int) =~= e);
    assert(f.len() == 2 + n);
    assert(b[pos] == f[0]);
    assert(b[pos + 1] == f[1]);
    assert(f[0] == (n / 256) as u8);
    assert(f[1] == (n % 256) as u8);
    assert(b[pos] * 256 + b[pos + 1] == n);
    assert(b.subrange(pos + 2, pos + 2 + n) =~= e) by {
        assert forall|j: int| 0 <= j < n implies b.subrange(pos + 2, pos + 2 + n)[j] == e[j] by {
            assert(b.subrange(pos, pos + f.len())[2 + j] == f[2 + j]);
        }
    }
    encode_utf8_valid_utf8(s);
    encode_utf8_decode_utf8(s);
}

proof fn lemma_u64_at(b: Seq<u8>, pos: int, v: u64)
    requires
        0 <= pos,
        pos + 8 <= b.len(),
        b.subrange(pos, pos + 8) == be64(v),
    ensures
        u64_at(b, pos as nat) == Ok::<(u64, nat), Seq<char>>((v, (pos + 8) as nat)),
{
    lemma_be64_round_trip(v);
}

#[verifier::spinoff_prover]
#[verifier::rlimit(60)]
proof fn lemma_record_at(b: Seq<u8>, pos: int, r: ResultView)
    requires
        0 <= pos,
        sendable(r),
        pos + record_bytes(r).len() <= b.len(),
        b.subrange(pos, pos + record_bytes(r).len()) == record_bytes(r),
    ensures
        record_at(b, pos as nat) == Ok::<(ResultView, nat), Seq<char>>(
            (r, (pos + record_bytes(r).len()) as nat),
        ),
{
    reveal(record_at);
    reveal(record_bytes);
    let d = short_description(r.description);
    assert(d == r.description);
    let f1 = field_bytes(r.post);
    let f2 = field_bytes(r.media);
    let f3 = field_bytes(r.title);
    let f4 = field_bytes(d);
    let f5 = field_bytes(r.author_name);
    let f6 = field_bytes(r.author_did);
    let f7 = field_bytes(r.kind);
    let f8 = be64(r.bytes);
    let f9 = be64(r.timestamp_ms);
    let f10 = field_bytes(r.via);
    lemma_be64_round_trip(r.bytes);
    lemma_be64_round_trip(r.timestamp_ms);
    let q1 = f1;
    let q2 = q1 + f2;
    let q3 = q2 + f3;
    let q4 = q3 + f4;
    let q5 = q4 + f5;
    let q6 = q5 + f6;
    let q7 = q6 + f7;
    let q8 = q7 + f8;
    let q9 = q8 + f9;
    let q10 = q9 + f10;
    assert(record_bytes(r) == q10);
    lemma_split_sub(b, pos, q9, f10);
    lemma_split_sub(b, pos, q8, f9);
    lemma_split_sub(b, pos, q7, f8);
    lemma_split_sub(b, pos, q6, f7);
    lemma_split_sub(b, pos, q5, f6);
    lemma_split_sub(b, pos, q4, f5);
    lemma_split_sub(b, pos, q3, f4);
    lemma_split_sub(b, pos, q2, f3);
    lemma_split_sub(b, pos, q1, f2);
    lemma_field_at(b, pos, r.post);
    lemma_field_at(b, pos + q1.len(), r.media);
    lemma_field_at(b, pos + q2.len(), r.title);
    lemma_field_at(b, pos + q3.len(), d);
    lemma_field_at(b, pos + q4.len(), r.author_name);
    lemma_field_at(b, pos + q5.len(), r.author_did);
    lemma_field_at(b, pos + q6.len(), r.kind);
    lemma_u64_at(b, pos + q7.len(), r.bytes);
    lemma_u64_at(b, pos + q8.len(), r.timestamp_ms);
    lemma_field_at(b, pos + q9.len(), r.via);
    let v = ResultView {
        post: r.post,
        media: r.media,
        title: r.title,
        description: d,
        author_name: r.author_name,
        author_did: r.author_did,
        kind: r.kind,
        bytes: r.bytes,
        timestamp_ms: r.timestamp_ms,
        via: r.via,
    };
    assert(v =~= r);
}

#[verifier::spinoff_prover]
proof fn lemma_records_at(b: Seq<u8>, pos: int, rs: Seq<ResultView>)
    requires
        0 <= pos,
        forall|i: int| 0 <= i < rs.len() ==> sendable(#[trigger] rs[i]),
        pos + records_bytes(rs).len() <= b.len(),
        b.subrange(pos, pos + records_bytes(rs).len()) == records_bytes(rs),
    ensures
        records_at(b, pos as nat, rs.len()) == Ok::<(Seq<ResultView>, nat), Seq<char>>(
            (rs, (pos + records_bytes(rs).len()) as nat),
        ),
    decreases rs.len(),
{
    if rs.len() == 0 {
        assert(rs =~= Seq::<ResultView>::empty());
        assert(records_bytes(rs).len() == 0);
    } else {
        let r = rs[0];
        let tail = rs.drop_first();
        assert(sendable(rs[0]));
        assert(records_bytes(rs) == record_bytes(r) + records_bytes(tail));
        lemma_split_sub(b, pos, record_bytes(r), records_bytes(tail));
        lemma_record_at(b, pos, r);
        let next = (pos + record_bytes(r).len()) as nat;
        assert(records_at(b, pos as nat, rs.len()) == after(
            seq![r],
            records_at(b, next, tail.len()),
        ));
        assert forall|i: int| 0 <= i < tail.len() implies sendable(#[trigger] tail[i]) by {
            assert(tail[i] == rs[i + 1]);
        }
        lemma_records_at(b, pos + record_bytes(r).len(), tail);
        assert(records_bytes(rs).len() == record_bytes(r).len() + records_bytes(tail).len());
        assert(seq![r] + tail =~= rs);
        assert(after(seq![r], records_at(b, next, tail.len())) == Ok::<
            (Seq<ResultView>, nat),
            Seq<char>,
        >((seq![r] + tail, (next + records_bytes(tail).len()) as nat)));
    }
}

} // verus!
