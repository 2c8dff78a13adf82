//! The byte format of locally protected conversation records: a version
//! byte, a record count, then each record's label, peer DID, route and key.
//! Decoding is strict: a bad version, an oversized count or field, invalid
//! UTF-8 or trailing bytes reject the whole vault.
use crate::text::{chars_of, trim, trim_bounds};
use vstd::prelude::*;
use vstd::slice::slice_to_vec;
use vstd::string::StringExecFns;
use vstd::utf8::{
    decode_utf8, decode_utf8_encode_utf8, encode_utf8, encode_utf8_decode_utf8,
    encode_utf8_valid_utf8, valid_utf8,
};

verus! {

pub const VAULT_VERSION: u8 = 1;

pub const MAX_CONVERSATIONS: usize = 128;

pub const MAX_LABEL_BYTES: usize = 80;

pub const MAX_DID_BYTES: usize = 256;

/// One conversation: the owner's label, the peer's DID, and the route and
/// key of the conversation capability.
#[derive(Debug, Clone, PartialEq, Eq)]
pub struct ConversationRecord {
    pub label: String,
    pub peer: String,
    pub route: [u8; 32],
    pub key: [u8; 32],
}

/// What a record holds.
pub struct RecordView {
    pub label: Seq<char>,
    pub peer: Seq<char>,
    pub route: Seq<u8>,
    pub key: Seq<u8>,
}

impl View for ConversationRecord {
    type V = RecordView;

    open spec fn view(&self) -> RecordView {
        RecordView { label: self.label@, peer: self.peer@, route: self.route@, key: self.key@ }
    }
}

pub open spec fn record_views(rs: Seq<ConversationRecord>) -> Seq<RecordView> {
    rs.map_values(|r: ConversationRecord| r@)
}

/// Big-endian bytes of a `u16`.
pub open spec fn be16(v: u16) -> Seq<u8> {
    seq![(v >> 8u16) as u8, v as u8]
}

/// Big-endian bytes of a `u32`.
pub open spec fn be32(v: u32) -> Seq<u8> {
    seq![(v >> 24u32) as u8, (v >> 16u32) as u8, (v >> 8u32) as u8, v as u8]
}

pub open spec fn be16_value(s: Seq<u8>) -> u16 {
    ((s[0] as u16) << 8u16 | (s[1] as u16)) as u16
}

pub open spec fn be32_value(s: Seq<u8>) -> u32 {
    ((s[0] as u32) << 24u32 | (s[1] as u32) << 16u32 | (s[2] as u32) << 8u32 | (s[3] as u32)) as u32
}

proof fn lemma_be16(v: u16, s: Seq<u8>)
    ensures
        be16(v).len() == 2,
        be16_value(be16(v)) == v,
        s.len() == 2 ==> be16(be16_value(s)) == s,
{
    let b = be16(v);
    assert(b[0] == (v >> 8u16) as u8 && b[1] == v as u8);
    assert((((v >> 8u16) as u8) as u16) << 8u16 | ((v as u8) as u16) == v) by (bit_vector);
    if s.len() == 2 {
        let s0 = s[0];
        let s1 = s[1];
        let w = be16_value(s);
        assert(w == ((s0 as u16) << 8u16 | (s1 as u16)) as u16);
        assert((((((s0 as u16) << 8u16 | (s1 as u16)) as u16) >> 8u16) as u8) == s0 && ((((
        s0 as u16) << 8u16 | (s1 as u16)) as u16) as u8) == s1) by (bit_vector);
        assert(be16(w) =~= s);
    }
}

pub(crate) proof fn lemma_be32(v: u32, s: Seq<u8>)
    ensures
        be32(v).len() == 4,
        be32_value(be32(v)) == v,
        s.len() == 4 ==> be32(be32_value(s)) == s,
{
    let b = be32(v);
    assert(b[0] == (v >> 24u32) as u8 && b[1] == (v >> 16u32) as u8 && b[2] == (v
        >> 8u32) as u8 && b[3] == v as u8);
    assert((((v >> 24u32) as u8) as u32) << 24u32 | (((v >> 16u32) as u8) as u32) << 16u32 | (((v
        >> 8u32) as u8) as u32) << 8u32 | ((v as u8) as u32) == v) by (bit_vector);
    if s.len() == 4 {
        let s0 = s[0];
        let s1 = s[1];
        let s2 = s[2];
        let s3 = s[3];
        let w = be32_value(s);
        assert(w == ((s0 as u32) << 24u32 | (s1 as u32) << 16u32 | (s2 as u32) << 8u32 | (
        s3 as u32)) as u32);
        assert({
            let x = ((s0 as u32) << 24u32 | (s1 as u32) << 16u32 | (s2 as u32) << 8u32 | (
            s3 as u32)) as u32;
            &&& ((x >> 24u32) as u8) == s0
            &&& ((x >> 16u32) as u8) == s1
            &&& ((x >> 8u32) as u8) == s2
            &&& (x as u8) == s3
        }) by (bit_vector);
        assert(be32(w) =~= s);
    }
}

/// A field: its UTF-8 length as a big-endian `u16`, then its bytes.
pub open spec fn field_bytes(text: Seq<char>) -> Seq<u8> {
    be16(encode_utf8(text).len() as u16) + encode_utf8(text)
}

/// One encoded record.
pub open spec fn record_bytes(r: RecordView) -> Seq<u8> {
    field_bytes(r.label) + field_bytes(r.peer) + r.route + r.key
}

/// Records encoded one after another.
pub open spec fn records_bytes(rs: Seq<RecordView>) -> Seq<u8>
    decreases rs.len(),
{
    if rs.len() == 0 {
        Seq::empty()
    } else {
        record_bytes(rs[0]) + records_bytes(rs.drop_first())
    }
}

/// The encoded vault.
pub open spec fn vault_bytes(rs: Seq<RecordView>) -> Seq<u8> {
    seq![VAULT_VERSION] + be32(rs.len() as u32) + records_bytes(rs)
}

/// A label of one to eighty bytes that is not only whitespace.
pub open spec fn label_ok(label: Seq<char>) -> bool {
    trim(label).len() != 0 && encode_utf8(label).len() <= MAX_LABEL_BYTES
}

/// A record that the vault can hold.
pub open spec fn record_ok(r: RecordView) -> bool {
    &&& label_ok(r.label)
    &&& 0 < encode_utf8(r.peer).len() <= MAX_DID_BYTES
    &&& r.route.len() == 32
    &&& r.key.len() == 32
}

/// Records that the vault can hold.
pub open spec fn vault_ok(rs: Seq<RecordView>) -> bool {
    &&& rs.len() <= MAX_CONVERSATIONS
    &&& forall|i: int| 0 <= i < rs.len() ==> record_ok(#[trigger] rs[i])
}

proof fn lemma_records_push(rs: Seq<RecordView>, n: int)
    requires
        0 <= n < rs.len(),
    ensures
        records_bytes(rs.take(n + 1)) == records_bytes(rs.take(n)) + record_bytes(rs[n]),
    decreases n,
{
    if n == 0 {
        assert(rs.take(1).drop_first() =~= Seq::<RecordView>::empty());
        assert(records_bytes(Seq::<RecordView>::empty()) =~= Seq::<u8>::empty());
        assert(rs.take(1)[0] == rs[0]);
        assert(rs.take(0) =~= Seq::<RecordView>::empty());
        assert(records_bytes(rs.take(1)) =~= record_bytes(rs[0]) + Seq::<u8>::empty());
        assert(records_bytes(rs.take(0)) + record_bytes(rs[0]) =~= record_bytes(rs[0]));
    } else {
        let rest = rs.drop_first();
        lemma_records_push(rest, n - 1);
        assert(rs.take(n + 1).drop_first() =~= rest.take(n));
        assert(rs.take(n).drop_first() =~= rest.take(n - 1));
        assert(rs.take(n + 1)[0] == rs[0]);
        assert(rs.take(n)[0] == rs[0]);
        assert(rest[n - 1] == rs[n]);
        assert(records_bytes(rs.take(n + 1)) =~= record_bytes(rs[0]) + records_bytes(
            rest.take(n),
        ));
        assert(records_bytes(rs.take(n)) =~= record_bytes(rs[0]) + records_bytes(
            rest.take(n - 1),
        ));
        assert(record_bytes(rs[0]) + (records_bytes(rest.take(n - 1)) + record_bytes(rs[n]))
            =~= record_bytes(rs[0]) + records_bytes(rest.take(n - 1)) + record_bytes(rs[n]));
    }
}

/// Where the parts of an encoded record lie, when more bytes follow it.
proof fn lemma_record_fields(r: RecordView, tail: Seq<u8>)
    requires
        r.route.len() == 32,
        r.key.len() == 32,
    ensures
        ({
            let s = record_bytes(r) + tail;
            let n = encode_utf8(r.label).len() as int;
            let m = encode_utf8(r.peer).len() as int;
            &&& s.len() == 68 + n + m + tail.len()
            &&& s.subrange(0, 2) == be16(n as u16)
            &&& s.subrange(2, 2 + n) == encode_utf8(r.label)
            &&& s.subrange(2 + n, 4 + n) == be16(m as u16)
            &&& s.subrange(4 + n, 4 + n + m) == encode_utf8(r.peer)
            &&& s.subrange(4 + n + m, 36 + n + m) == r.route
            &&& s.subrange(36 + n + m, 68 + n + m) == r.key
            &&& s.skip(68 + n + m) == tail
        }),
{
    let s = record_bytes(r) + tail;
    let n = encode_utf8(r.label).len() as int;
    let m = encode_utf8(r.peer).len() as int;
    lemma_be16(n as u16, Seq::empty());
    lemma_be16(m as u16, Seq::empty());
    assert(s.subrange(0, 2) =~= be16(n as u16));
    assert(s.subrange(2, 2 + n) =~= encode_utf8(r.label));
    assert(s.subrange(2 + n, 4 + n) =~= be16(m as u16));
    assert(s.subrange(4 + n, 4 + n + m) =~= encode_utf8(r.peer));
    assert(s.subrange(4 + n + m, 36 + n + m) =~= r.route);
    assert(s.subrange(36 + n + m, 68 + n + m) =~= r.key);
    assert(s.skip(68 + n + m) =~= tail);
}

/// Two encoded records that begin the same bytes are the same record,
/// followed by the same bytes.
proof fn lemma_record_unique(a: RecordView, b: RecordView, x: Seq<u8>, y: Seq<u8>)
    requires
        record_ok(a),
        record_ok(b),
        record_bytes(a) + x == record_bytes(b) + y,
    ensures
        a == b,
        x == y,
{
    let n1 = encode_utf8(a.label).len() as int;
    let n2 = encode_utf8(b.label).len() as int;
    let m1 = encode_utf8(a.peer).len() as int;
    let m2 = encode_utf8(b.peer).len() as int;
    lemma_record_fields(a, x);
    lemma_record_fields(b, y);
    lemma_be16(n1 as u16, Seq::empty());
    lemma_be16(n2 as u16, Seq::empty());
    assert(n1 == n2);
    lemma_be16(m1 as u16, Seq::empty());
    lemma_be16(m2 as u16, Seq::empty());
    assert(m1 == m2);
    broadcast use encode_utf8_decode_utf8;

    assert(a.label == decode_utf8(encode_utf8(a.label)));
    assert(a.label == b.label);
    assert(a.peer == decode_utf8(encode_utf8(a.peer)));
    assert(a.peer == b.peer);
    assert(a.route =~= b.route);
    assert(a.key =~= b.key);
}

/// Two equally long lists of encoded records that begin the same bytes are
/// the same list, followed by the same bytes.
proof fn lemma_records_unique(a: Seq<RecordView>, b: Seq<RecordView>, x: Seq<u8>, y: Seq<u8>)
    requires
        a.len() == b.len(),
        forall|i: int| 0 <= i < a.len() ==> record_ok(#[trigger] a[i]),
        forall|i: int| 0 <= i < b.len() ==> record_ok(#[trigger] b[i]),
        records_bytes(a) + x == records_bytes(b) + y,
    ensures
        a == b,
        x == y,
    decreases a.len(),
{
    if a.len() == 0 {
        assert(records_bytes(a) =~= Seq::<u8>::empty());
        assert(records_bytes(b) =~= Seq::<u8>::empty());
        assert(x =~= records_bytes(a) + x);
        assert(y =~= records_bytes(b) + y);
        assert(a =~= b);
    } else {
        let a1 = a.drop_first();
        let b1 = b.drop_first();
        assert(records_bytes(a) + x =~= record_bytes(a[0]) + (records_bytes(a1) + x));
        assert(records_bytes(b) + y =~= record_bytes(b[0]) + (records_bytes(b1) + y));
        lemma_record_unique(a[0], b[0], records_bytes(a1) + x, records_bytes(b1) + y);
        assert forall|i: int| 0 <= i < a1.len() implies record_ok(#[trigger] a1[i]) by {
            assert(a1[i] == a[i + 1]);
        }
        assert forall|i: int| 0 <= i < b1.len() implies record_ok(#[trigger] b1[i]) by {
            assert(b1[i] == b[i + 1]);
        }
        lemma_records_unique(a1, b1, x, y);
        assert forall|i: int| 0 <= i < a.len() implies a[i] == b[i] by {
            if i > 0 {
                assert(a[i] == a1[i - 1]);
                assert(b[i] == b1[i - 1]);
            }
        }
        assert(a =~= b);
    }
}

/// Law: the encoding is one-to-one on the records a vault can hold — two
/// lists with the same vault bytes are the same list.
pub proof fn lemma_vault_bytes_injective(a: Seq<RecordView>, b: Seq<RecordView>)
    requires
        vault_ok(a),
        vault_ok(b),
        vault_bytes(a) == vault_bytes(b),
    ensures
        a == b,
{
    let va = vault_bytes(a);
    lemma_be32(a.len() as u32, Seq::empty());
    lemma_be32(b.len() as u32, Seq::empty());
    assert(va.subrange(1, 5) =~= be32(a.len() as u32));
    assert(vault_bytes(b).subrange(1, 5) =~= be32(b.len() as u32));
    assert(a.len() == b.len());
    assert(va.skip(5) =~= records_bytes(a) + Seq::<u8>::empty());
    assert(vault_bytes(b).skip(5) =~= records_bytes(b) + Seq::<u8>::empty());
    lemma_records_unique(a, b, Seq::empty(), Seq::empty());
}

/// Whether a label is one to eighty bytes and not only whitespace.
pub fn validate_label(label: &str) -> (r: Result<(), String>)
    ensures
        r is Ok <==> label_ok(label@),
{
    let chars = chars_of(label);
    let (a, b) = trim_bounds(&chars);
    if a == b || label.as_bytes().len() > MAX_LABEL_BYTES {
        return Err(String::from_str("conversation label must be 1-80 bytes"));
    }
    Ok(())
}

fn write_bounded(out: &mut Vec<u8>, text: &str, max: usize) -> (r: Result<(), String>)
    requires
        max <= 65535,
    ensures
        encode_utf8(text@).len() == 0 || encode_utf8(text@).len() > max ==> r is Err,
        0 < encode_utf8(text@).len() <= max ==> r is Ok && final(out)@ == old(out)@ + field_bytes(
            text@,
        ),
{
    let value = text.as_bytes();
    if value.len() == 0 || value.len() > max {
        return Err(String::from_str("conversation field exceeds its limit"));
    }
    let n = value.len() as u16;
    out.push((n >> 8u16) as u8);
    out.push(n as u8);
    crate::scalable_epoch_wire::put_slice(out, value);
    assert(out@ =~= old(out)@ + field_bytes(text@));
    Ok(())
}

/// Encode the records, refusing more than the vault holds or a field out
/// of its bounds.
pub fn encode(conversations: &[ConversationRecord]) -> (r: Result<Vec<u8>, String>)
    ensures
        vault_ok(record_views(conversations@)) ==> (r matches Ok(b) && b@ == vault_bytes(
            record_views(conversations@),
        )),
        !vault_ok(record_views(conversations@)) ==> r is Err,
{
    let ghost views = record_views(conversations@);
    if conversations.len() > MAX_CONVERSATIONS {
        return Err(String::from_str("conversation limit exceeded"));
    }
    let mut bytes: Vec<u8> = Vec::new();
    bytes.push(VAULT_VERSION);
    let count = conversations.len() as u32;
    bytes.push((count >> 24u32) as u8);
    bytes.push((count >> 16u32) as u8);
    bytes.push((count >> 8u32) as u8);
    bytes.push(count as u8);
    let ghost head = bytes@;
    assert(head =~= seq![VAULT_VERSION] + be32(count));
    let mut i: usize = 0;
    assert(views.take(0) =~= Seq::<RecordView>::empty());
    assert(head + records_bytes(views.take(0)) =~= head);
    while i < conversations.len()
        invariant
            conversations@.len() <= MAX_CONVERSATIONS,
            views == record_views(conversations@),
            i <= conversations@.len(),
            head == seq![VAULT_VERSION] + be32(conversations@.len() as u32),
            bytes@ == head + records_bytes(views.take(i as int)),
            forall|j: int| 0 <= j < i ==> record_ok(#[trigger] views[j]),
        decreases conversations@.len() - i,
    {
        let record = &conversations[i];
        assert(views[i as int] == record@);
        let ghost before = bytes@;
        match validate_label(record.label.as_str()) {
            Ok(()) => {},
            Err(e) => {
                return Err(e);
            },
        }
        match write_bounded(&mut bytes, record.label.as_str(), MAX_LABEL_BYTES) {
            Ok(()) => {},
            Err(e) => {
                return Err(e);
            },
        }
        match write_bounded(&mut bytes, record.peer.as_str(), MAX_DID_BYTES) {
            Ok(()) => {},
            Err(e) => {
                return Err(e);
            },
        }
        crate::scalable_epoch_wire::put_slice(&mut bytes, &record.route);
        crate::scalable_epoch_wire::put_slice(&mut bytes, &record.key);
        proof {
            lemma_records_push(views, i as int);
            assert(bytes@ =~= before + record_bytes(record@));
        }
        i = i + 1;
    }
    assert(views.take(i as int) =~= views);
    Ok(bytes)
}

/// A cursor over untrusted bytes.
struct Cursor<'a> {
    bytes: &'a [u8],
    offset: usize,
}

impl<'a> Cursor<'a> {
    spec fn rest(&self) -> Seq<u8> {
        self.bytes@.subrange(self.offset as int, self.bytes@.len() as int)
    }

    fn take(&mut self, len: usize) -> (r: Result<&'a [u8], String>)
        requires
            old(self).offset <= old(self).bytes@.len(),
        ensures
            final(self).offset <= final(self).bytes@.len(),
            final(self).bytes@ == old(self).bytes@,
            old(self).offset + len <= old(self).bytes@.len() ==> (r matches Ok(v) && v@
                == old(self).bytes@.subrange(old(self).offset as int, old(self).offset + len)
                && final(self).offset == old(self).offset + len),
            old(self).offset + len > old(self).bytes@.len() ==> r is Err,
    {
        let available = self.bytes.len();
        let end = match self.offset.checked_add(len) {
            Some(e) => e,
            None => {
                return Err(String::from_str("conversation vault length overflow"));
            },
        };
        if end > available {
            return Err(String::from_str("truncated conversation vault"));
        }
        let value = vstd::slice::slice_subrange(self.bytes, self.offset, end);
        self.offset = end;
        Ok(value)
    }

    fn u8(&mut self) -> (r: Result<u8, String>)
        requires
            old(self).offset <= old(self).bytes@.len(),
        ensures
            final(self).offset <= final(self).bytes@.len(),
            final(self).bytes@ == old(self).bytes@,
            old(self).offset + 1 <= old(self).bytes@.len() ==> (r matches Ok(v) && v
                == old(self).bytes@[old(self).offset as int] && final(self).offset == old(
                self,
            ).offset + 1),
            old(self).offset + 1 > old(self).bytes@.len() ==> r is Err,
    {
        match self.take(1) {
            Ok(v) => Ok(v[0]),
            Err(e) => Err(e),
        }
    }

    fn u16(&mut self) -> (r: Result<u16, String>)
        requires
            old(self).offset <= old(self).bytes@.len(),
        ensures
            final(self).offset <= final(self).bytes@.len(),
            final(self).bytes@ == old(self).bytes@,
            old(self).offset + 2 <= old(self).bytes@.len() ==> (r matches Ok(v) && v
                == be16_value(old(self).bytes@.subrange(old(self).offset as int, old(self).offset + 2))
                && final(self).offset == old(self).offset + 2),
            old(self).offset + 2 > old(self).bytes@.len() ==> r is Err,
    {
        match self.take(2) {
            Ok(v) => Ok(((v[0] as u16) << 8u16) | (v[1] as u16)),
            Err(e) => Err(e),
        }
    }

    fn u32(&mut self) -> (r: Result<u32, String>)
        requires
            old(self).offset <= old(self).bytes@.len(),
        ensures
            final(self).offset <= final(self).bytes@.len(),
            final(self).bytes@ == old(self).bytes@,
            old(self).offset + 4 <= old(self).bytes@.len() ==> (r matches Ok(v) && v
                == be32_value(old(self).bytes@.subrange(old(self).offset as int, old(self).offset + 4))
                && final(self).offset == old(self).offset + 4),
            old(self).offset + 4 > old(self).bytes@.len() ==> r is Err,
    {
        match self.take(4) {
            Ok(v) => Ok(((v[0] as u32) << 24u32) | ((v[1] as u32) << 16u32) | ((v[2] as u32)
                << 8u32) | (v[3] as u32)),
            Err(e) => Err(e),
        }
    }

    fn array_32(&mut self) -> (r: Result<[u8; 32], String>)
        requires
            old(self).offset <= old(self).bytes@.len(),
        ensures
            final(self).offset <= final(self).bytes@.len(),
            final(self).bytes@ == old(self).bytes@,
            old(self).offset + 32 <= old(self).bytes@.len() ==> (r matches Ok(v) && v@
                == old(self).bytes@.subrange(old(self).offset as int, old(self).offset + 32)
                && final(self).offset == old(self).offset + 32),
            old(self).offset + 32 > old(self).bytes@.len() ==> r is Err,
    {
        let v = match self.take(32) {
            Ok(v) => v,
            Err(e) => {
                return Err(e);
            },
        };
        let mut out: [u8; 32] = [0u8; 32];
        let mut i: usize = 0;
        while i < 32
            invariant
                i <= 32,
                v@.len() == 32,
                out@.len() == 32,
                forall|j: int| 0 <= j < i ==> out@[j] == v@[j],
            decreases 32 - i,
        {
            out.set(i, v[i]);
            i = i + 1;
        }
        assert(out@ =~= v@);
        Ok(out)
    }
}

/// Reads one record. What it reads is a record the vault can hold, encoded
/// by exactly the bytes consumed; where the unread bytes are the encoding
/// of `expected` followed by `tail`, it reads `expected` and leaves `tail`.
fn read_record(cursor: &mut Cursor, Ghost(expected): Ghost<RecordView>, Ghost(tail): Ghost<Seq<u8>>) -> (r: Result<ConversationRecord, String>)
    requires
        old(cursor).offset <= old(cursor).bytes@.len(),
    ensures
        final(cursor).offset <= final(cursor).bytes@.len(),
        final(cursor).bytes@ == old(cursor).bytes@,
        r matches Ok(rec) ==> record_ok(rec@) && old(cursor).offset <= final(cursor).offset
            && old(cursor).bytes@.subrange(old(cursor).offset as int, final(cursor).offset as int)
            == record_bytes(rec@),
        old(cursor).rest() == record_bytes(expected) + tail && record_ok(expected) ==> (r matches Ok(rec) && rec@ == expected && final(cursor).rest() == tail),
{
    let ghost all = cursor.bytes@;
    let ghost p0 = cursor.offset as int;
    let ghost start = cursor.rest();
    let ghost n = encode_utf8(expected.label).len() as int;
    let ghost m = encode_utf8(expected.peer).len() as int;
    let ghost target = start == record_bytes(expected) + tail && record_ok(expected);
    proof {
        if target {
            lemma_record_fields(expected, tail);
            lemma_be16(n as u16, Seq::empty());
            lemma_be16(m as u16, Seq::empty());
            crate::text::lemma_trim_nonempty(expected.label);
            assert(all.subrange(p0, p0 + 2) =~= start.subrange(0, 2));
            assert(all.subrange(p0 + 2, p0 + 2 + n) =~= start.subrange(2, 2 + n));
            assert(all.subrange(p0 + 2 + n, p0 + 4 + n) =~= start.subrange(2 + n, 4 + n));
            assert(all.subrange(p0 + 4 + n, p0 + 4 + n + m) =~= start.subrange(4 + n, 4 + n + m));
            assert(all.subrange(p0 + 4 + n + m, p0 + 36 + n + m) =~= start.subrange(
                4 + n + m,
                36 + n + m,
            ));
            assert(all.subrange(p0 + 36 + n + m, p0 + 68 + n + m) =~= start.subrange(
                36 + n + m,
                68 + n + m,
            ));
            assert(all.subrange(p0 + 68 + n + m, all.len() as int) =~= start.skip(68 + n + m));
        }
    }
    let label_len = match cursor.u16() {
        Ok(v) => v,
        Err(e) => {
            return Err(e);
        },
    };
    if label_len == 0 || label_len as usize > MAX_LABEL_BYTES {
        return Err(String::from_str("conversation field exceeds its limit"));
    }
    let label_bytes = match cursor.take(label_len as usize) {
        Ok(v) => v,
        Err(e) => {
            return Err(e);
        },
    };
    proof {
        broadcast use encode_utf8_valid_utf8;
        broadcast use encode_utf8_decode_utf8;

    }
    let label = match crate::scalable_epoch_wire::string_from_utf8(slice_to_vec(label_bytes)) {
        Some(s) => s,
        None => {
            return Err(String::from_str("conversation label is not UTF-8"));
        },
    };
    match validate_label(label.as_str()) {
        Ok(()) => {},
        Err(e) => {
            return Err(e);
        },
    }
    let peer_len = match cursor.u16() {
        Ok(v) => v,
        Err(e) => {
            return Err(e);
        },
    };
    if peer_len == 0 || peer_len as usize > MAX_DID_BYTES {
        return Err(String::from_str("conversation field exceeds its limit"));
    }
    let peer_bytes = match cursor.take(peer_len as usize) {
        Ok(v) => v,
        Err(e) => {
            return Err(e);
        },
    };
    let peer = match crate::scalable_epoch_wire::string_from_utf8(slice_to_vec(peer_bytes)) {
        Some(s) => s,
        None => {
            return Err(String::from_str("conversation DID is not UTF-8"));
        },
    };
    let route = match cursor.array_32() {
        Ok(v) => v,
        Err(e) => {
            return Err(e);
        },
    };
    let key = match cursor.array_32() {
        Ok(v) => v,
        Err(e) => {
            return Err(e);
        },
    };
    let record = ConversationRecord { label, peer, route, key };
    proof {
        broadcast use decode_utf8_encode_utf8;

        let q = p0 + 2 + label_len;
        let w = q + 2 + peer_len;
        lemma_be16(0, all.subrange(p0, p0 + 2));
        lemma_be16(0, all.subrange(q, q + 2));
        assert(encode_utf8(record.label@) == label_bytes@);
        assert(encode_utf8(record.peer@) == peer_bytes@);
        assert(all.subrange(p0, cursor.offset as int) =~= record_bytes(record@));
        if target {
            assert(cursor.rest() =~= tail);
        }
    }
    Ok(record)
}

/// Decode a vault: its bytes must be exactly the encoding of records the
/// vault can hold.
pub fn decode(bytes: &[u8]) -> (r: Result<Vec<ConversationRecord>, String>)
    ensures
        r matches Ok(rs) ==> vault_ok(record_views(rs@)) && vault_bytes(record_views(rs@))
            == bytes@,
        forall|t: Seq<RecordView>|
            vault_ok(t) && #[trigger] vault_bytes(t) == bytes@ ==> (r matches Ok(rs)
                && record_views(rs@) == t),
{
    let ghost b = bytes@;
    let ghost has_t = exists|t: Seq<RecordView>| vault_ok(t) && vault_bytes(t) == b;
    let ghost t0 = choose|t: Seq<RecordView>| vault_ok(t) && vault_bytes(t) == b;
    proof {
        if has_t {
            lemma_be32(t0.len() as u32, Seq::empty());
            assert(b.subrange(1, 5) =~= be32(t0.len() as u32));
            assert(b[0] == VAULT_VERSION);
            assert(t0.skip(0) =~= t0);
            assert(b.subrange(5, b.len() as int) =~= records_bytes(t0));
        }
    }
    let mut cursor = Cursor { bytes, offset: 0 };
    let version = match cursor.u8() {
        Ok(v) => v,
        Err(e) => {
            return Err(e);
        },
    };
    if version != VAULT_VERSION {
        return Err(String::from_str("unsupported conversation vault version"));
    }
    let count = match cursor.u32() {
        Ok(v) => v,
        Err(e) => {
            return Err(e);
        },
    };
    if count as usize > MAX_CONVERSATIONS {
        return Err(String::from_str("conversation limit exceeded"));
    }
    let count = count as usize;
    proof {
        lemma_be32(0, b.subrange(1, 5));
        assert(b.subrange(0, 5) =~= seq![VAULT_VERSION] + be32(count as u32) + records_bytes(
            Seq::<RecordView>::empty(),
        ));
    }
    let mut conversations: Vec<ConversationRecord> = Vec::new();
    assert(record_views(conversations@) =~= Seq::<RecordView>::empty());
    let mut i: usize = 0;
    while i < count
        invariant
            cursor.offset <= cursor.bytes@.len(),
            cursor.bytes@ == b,
            b == bytes@,
            count <= MAX_CONVERSATIONS,
            i <= count,
            conversations@.len() == i,
            b.subrange(0, cursor.offset as int) == seq![VAULT_VERSION] + be32(count as u32)
                + records_bytes(record_views(conversations@)),
            forall|j: int|
                0 <= j < i ==> record_ok(#[trigger] record_views(conversations@)[j]),
            has_t == exists|t: Seq<RecordView>| vault_ok(t) && vault_bytes(t) == b,
            has_t ==> vault_ok(t0) && vault_bytes(t0) == b,
            has_t ==> count == t0.len() && cursor.rest() == records_bytes(t0.skip(i as int))
                && record_views(conversations@) == t0.take(i as int),
        decreases count - i,
    {
        let ghost expected = t0[i as int];
        let ghost later = records_bytes(t0.skip(i + 1));
        proof {
            if has_t {
                let s = t0.skip(i as int);
                assert(s[0] == expected);
                assert(s.drop_first() =~= t0.skip(i + 1));
                assert(records_bytes(s) =~= record_bytes(expected) + later);
                assert(record_ok(t0[i as int]));
            }
        }
        let ghost before = cursor.offset as int;
        let ghost old_views = record_views(conversations@);
        let record = match read_record(&mut cursor, Ghost(expected), Ghost(later)) {
            Ok(rec) => rec,
            Err(e) => {
                return Err(e);
            },
        };
        conversations.push(record);
        proof {
            let views = record_views(conversations@);
            assert(views.take(i as int) =~= old_views);
            assert(views.take(i + 1) =~= views);
            assert(views[i as int] == record@);
            lemma_records_push(views, i as int);
            assert(b.subrange(0, cursor.offset as int) =~= b.subrange(0, before) + b.subrange(
                before,
                cursor.offset as int,
            ));
            if has_t {
                assert(views =~= t0.take(i + 1));
            }
        }
        i = i + 1;
    }
    if cursor.offset != bytes.len() {
        proof {
            if has_t {
                assert(t0.skip(i as int) =~= Seq::<RecordView>::empty());
                assert(records_bytes(t0.skip(i as int)) =~= Seq::<u8>::empty());
            }
        }
        return Err(String::from_str("conversation vault has trailing bytes"));
    }
    proof {
        let views = record_views(conversations@);
        assert(b.subrange(0, b.len() as int) =~= b);
        assert(views.len() == count);
        assert forall|t: Seq<RecordView>| vault_ok(t) && #[trigger] vault_bytes(t) == b implies views
            == t by {
            lemma_vault_bytes_injective(views, t);
        }
    }
    Ok(conversations)
}

} // verus!
