//! File library helpers: the content type a file name suggests, and byte
//! counts as people read them.
use crate::conversation_state::{be32, be32_value, lemma_be32};
use crate::records::sub_chars;
use crate::scalable_epoch_wire::{
    be64, be64_value, lemma_be64_round_trip, put_slice, put_u64, read_u64, string_from_utf8,
};
use crate::text::{
    chars_of, decimal, digit, equals, lowercase, push_char, push_chars, push_decimal, string_of, trim,
    trim_bounds,
};
use vstd::prelude::*;
use vstd::slice::{slice_subrange, slice_to_vec};
use vstd::string::StringExecFns;
use vstd::utf8::{decode_utf8, encode_utf8, valid_utf8};

verus! {

#[derive(Debug, Clone, Copy, PartialEq, Eq, Structural)]
pub enum Kind {
    Manifest,
    Collection,
}

/// One file this device knows about, fully or partly; the object id and
/// the author's DID are carried as text.
#[derive(Debug, Clone, PartialEq, Eq)]
pub struct Item {
    pub id: String,
    pub kind: Kind,
    pub name: String,
    pub content_type: String,
    pub total_len: u64,
    pub author: String,
    pub timestamp_ms: u64,
    /// Chunks present / chunks total across every part.
    pub chunks_present: usize,
    pub chunks_total: usize,
    /// Parts whose manifest object itself has not arrived yet.
    pub parts_missing: usize,
}

impl Item {
    /// Every part's manifest is here and so is every chunk.
    pub fn complete(&self) -> (b: bool)
        ensures
            b == (self.parts_missing == 0 && self.chunks_present == self.chunks_total),
    {
        self.parts_missing == 0 && self.chunks_present == self.chunks_total
    }

    /// Chunks present as a whole percentage of all chunks, kept to a byte;
    /// with no chunks at all, 100 when complete and 0 otherwise.
    pub fn percent(&self) -> (p: u8)
        ensures
            self.chunks_total == 0 ==> p == if self.parts_missing == 0 && self.chunks_present == 0 {
                100u8
            } else {
                0u8
            },
            self.chunks_total != 0 ==> p == ((self.chunks_present as nat * 100)
                / self.chunks_total as nat) % 256,
    {
        if self.chunks_total == 0 {
            return if self.complete() {
                100
            } else {
                0
            };
        }
        let q: u128 = (self.chunks_present as u128 * 100) / self.chunks_total as u128;
        proof {
            assert(q as u8 == q % 256) by (bit_vector);
        }
        q as u8
    }
}

/// Whether `c` separates path components.
pub open spec fn is_separator(c: char) -> bool {
    c == '/' || c == '\\'
}

/// The last component of a path: what follows its last separator.
pub open spec fn last_component(path: Seq<char>) -> Seq<char>
    decreases path.len(),
{
    if path.len() == 0 {
        path
    } else if is_separator(path.last()) {
        Seq::empty()
    } else {
        last_component(path.drop_last()).push(path.last())
    }
}

/// The position of the last dot in `name`, if any.
pub open spec fn last_dot(name: Seq<char>) -> Option<nat>
    decreases name.len(),
{
    if name.len() == 0 {
        None
    } else if name.last() == '.' {
        Some((name.len() - 1) as nat)
    } else {
        last_dot(name.drop_last())
    }
}

/// A file name's extension: what follows its last dot, unless the name is
/// `..`, has no dot, or has its only dot first.
pub open spec fn extension(path: Seq<char>) -> Option<Seq<char>> {
    let name = last_component(path);
    if name == ".."@ {
        None
    } else {
        match last_dot(name) {
            Some(i) => if i == 0 {
                None
            } else {
                Some(name.skip((i + 1) as int))
            },
            None => None,
        }
    }
}

/// The content type for an extension, compared without regard to ASCII
/// case.
pub open spec fn content_type_of(ext: Option<Seq<char>>) -> Seq<char> {
    match ext {
        None => "application/octet-stream"@,
        Some(e) => {
            let e = lowercase(e);
            if e == "mp4"@ || e == "m4v"@ {
                "video/mp4"@
            } else if e == "mkv"@ {
                "video/x-matroska"@
            } else if e == "webm"@ {
                "video/webm"@
            } else if e == "mov"@ {
                "video/quicktime"@
            } else if e == "avi"@ {
                "video/x-msvideo"@
            } else if e == "mp3"@ {
                "audio/mpeg"@
            } else if e == "flac"@ {
                "audio/flac"@
            } else if e == "ogg"@ || e == "oga"@ {
                "audio/ogg"@
            } else if e == "wav"@ {
                "audio/wav"@
            } else if e == "png"@ {
                "image/png"@
            } else if e == "jpg"@ || e == "jpeg"@ {
                "image/jpeg"@
            } else if e == "gif"@ {
                "image/gif"@
            } else if e == "webp"@ {
                "image/webp"@
            } else if e == "pdf"@ {
                "application/pdf"@
            } else if e == "txt"@ || e == "md"@ {
                "text/plain"@
            } else if e == "zip"@ {
                "application/zip"@
            } else {
                "application/octet-stream"@
            }
        },
    }
}

proof fn lemma_last_component(path: Seq<char>, start: int)
    requires
        0 <= start <= path.len(),
        start == 0 || is_separator(path[start - 1]),
        forall|j: int| start <= j < path.len() ==> !is_separator(#[trigger] path[j]),
    ensures
        last_component(path) == path.skip(start),
    decreases path.len(),
{
    if path.len() > 0 {
        if start == path.len() {
            assert(path.skip(start) =~= Seq::<char>::empty());
        } else {
            let p = path.drop_last();
            assert forall|j: int| start <= j < p.len() implies !is_separator(#[trigger] p[j]) by {
                assert(p[j] == path[j]);
            }
            if start > 0 {
                assert(p[start - 1] == path[start - 1]);
            }
            lemma_last_component(p, start);
            assert(path.skip(start) =~= p.skip(start).push(path.last()));
        }
    } else {
        assert(path.skip(start) =~= path);
    }
}

proof fn lemma_last_dot(name: Seq<char>, i: int)
    requires
        -1 <= i < name.len(),
        i >= 0 ==> name[i] == '.',
        forall|j: int| i < j < name.len() ==> #[trigger] name[j] != '.',
    ensures
        last_dot(name) == if i >= 0 {
            Some(i as nat)
        } else {
            None::<nat>
        },
    decreases name.len(),
{
    if name.len() > 0 && i < name.len() - 1 {
        let p = name.drop_last();
        assert forall|j: int| i < j < p.len() implies #[trigger] p[j] != '.' by {
            assert(p[j] == name[j]);
        }
        if i >= 0 {
            assert(p[i] == name[i]);
        }
        lemma_last_dot(p, i);
    }
}

fn extension_of(path: &Vec<char>) -> (r: Option<Vec<char>>)
    ensures
        match extension(path@) {
            None => r is None,
            Some(e) => r matches Some(v) && v@ == e,
        },
{
    let n = path.len();
    let mut start: usize = n;
    while start > 0 && !(path[start - 1] == '/' || path[start - 1] == '\\')
        invariant
            n == path@.len(),
            start <= n,
            forall|j: int| start <= j < n ==> !is_separator(#[trigger] path@[j]),
        decreases start,
    {
        start = start - 1;
    }
    proof {
        lemma_last_component(path@, start as int);
    }
    let ghost name = path@.skip(start as int);
    if n - start == 2 && path[start] == '.' && path[start + 1] == '.' {
        assert(name =~= ".."@) by {
            reveal_strlit("..");
        }
        return None;
    }
    proof {
        reveal_strlit("..");
        if name == ".."@ {
            assert(name[0] == '.' && name[1] == '.');
        }
    }
    let mut dot: usize = n;
    while dot > start && path[dot - 1] != '.'
        invariant
            n == path@.len(),
            start <= dot <= n,
            forall|j: int| dot <= j < n ==> #[trigger] path@[j] != '.',
        decreases dot,
    {
        dot = dot - 1;
    }
    proof {
        assert forall|j: int| (dot - start) <= j < name.len() implies #[trigger] name[j] != '.' by {
            assert(name[j] == path@[j + start]);
        }
        if dot > start {
            assert(name[dot - start - 1] == path@[dot - 1]);
        }
        lemma_last_dot(name, dot - start - 1);
    }
    if dot == start || dot - start == 1 {
        return None;
    }
    let mut v: Vec<char> = Vec::new();
    let mut i: usize = dot;
    while i < n
        invariant
            n == path@.len(),
            dot <= i <= n,
            v@ == path@.subrange(dot as int, i as int),
        decreases n - i,
    {
        v.push(path[i]);
        i = i + 1;
        assert(v@ =~= path@.subrange(dot as int, i as int));
    }
    assert(v@ =~= name.skip(dot - start));
    Some(v)
}

fn lowered(v: &Vec<char>) -> (l: Vec<char>)
    ensures
        l@ == lowercase(v@),
{
    let mut l: Vec<char> = Vec::new();
    let mut i: usize = 0;
    while i < v.len()
        invariant
            i <= v@.len(),
            l@ == lowercase(v@).subrange(0, i as int),
        decreases v@.len() - i,
    {
        l.push(crate::text::to_ascii_lower(v[i]));
        i = i + 1;
        assert(l@ =~= lowercase(v@).subrange(0, i as int));
    }
    assert(l@ =~= lowercase(v@));
    l
}

/// The content type suggested by a file path's extension.
pub fn content_type_for(path: &str) -> (t: &'static str)
    ensures
        t@ == content_type_of(extension(path@)),
{
    let chars = chars_of(path);
    let ext = match extension_of(&chars) {
        Some(e) => lowered(&e),
        None => {
            return "application/octet-stream";
        },
    };
    if equals(&ext, chars_of("mp4").as_slice()) || equals(&ext, chars_of("m4v").as_slice()) {
        "video/mp4"
    } else if equals(&ext, chars_of("mkv").as_slice()) {
        "video/x-matroska"
    } else if equals(&ext, chars_of("webm").as_slice()) {
        "video/webm"
    } else if equals(&ext, chars_of("mov").as_slice()) {
        "video/quicktime"
    } else if equals(&ext, chars_of("avi").as_slice()) {
        "video/x-msvideo"
    } else if equals(&ext, chars_of("mp3").as_slice()) {
        "audio/mpeg"
    } else if equals(&ext, chars_of("flac").as_slice()) {
        "audio/flac"
    } else if equals(&ext, chars_of("ogg").as_slice()) || equals(&ext, chars_of("oga").as_slice()) {
        "audio/ogg"
    } else if equals(&ext, chars_of("wav").as_slice()) {
        "audio/wav"
    } else if equals(&ext, chars_of("png").as_slice()) {
        "image/png"
    } else if equals(&ext, chars_of("jpg").as_slice()) || equals(
        &ext,
        chars_of("jpeg").as_slice(),
    ) {
        "image/jpeg"
    } else if equals(&ext, chars_of("gif").as_slice()) {
        "image/gif"
    } else if equals(&ext, chars_of("webp").as_slice()) {
        "image/webp"
    } else if equals(&ext, chars_of("pdf").as_slice()) {
        "application/pdf"
    } else if equals(&ext, chars_of("txt").as_slice()) || equals(&ext, chars_of("md").as_slice()) {
        "text/plain"
    } else if equals(&ext, chars_of("zip").as_slice()) {
        "application/zip"
    } else {
        "application/octet-stream"
    }
}

/// 2^53: below it every integer is exactly a double.
pub open spec fn exact_limit() -> nat {
    9_007_199_254_740_992
}

/// The power of two by which `n` is scaled down to fit the 53 bits of a
/// double's significand, searching upward from `p`.
pub open spec fn significand_scale(n: nat, p: nat) -> nat
    decreases n - p,
{
    if p > 0 && n / p >= exact_limit() && 2 * p <= n {
        significand_scale(n, 2 * p)
    } else {
        p
    }
}

/// The double nearest to `n`, ties to the even significand, as
/// `n as f64` gives it; exact below 2^53.
pub open spec fn as_double(n: nat) -> nat {
    let p = significand_scale(n, 1);
    let q = n / p;
    let r = n % p;
    let up = 2 * r > p || (2 * r == p && q % 2 == 1);
    (if up {
        q + 1
    } else {
        q
    }) * p
}

/// How many times a size can be divided by 1024 while it stays at least
/// 1024, up to terabytes.
pub open spec fn size_unit(v: nat) -> nat {
    if v >= 1_099_511_627_776 {
        4
    } else if v >= 1_073_741_824 {
        3
    } else if v >= 1_048_576 {
        2
    } else if v >= 1024 {
        1
    } else {
        0
    }
}

/// 1024 to the power `unit`.
pub open spec fn unit_divisor(unit: nat) -> nat {
    if unit == 0 {
        1
    } else if unit == 1 {
        1024
    } else if unit == 2 {
        1_048_576
    } else if unit == 3 {
        1_073_741_824
    } else {
        1_099_511_627_776
    }
}

pub open spec fn unit_name(unit: nat) -> Seq<char> {
    if unit == 1 {
        "KB"@
    } else if unit == 2 {
        "MB"@
    } else if unit == 3 {
        "GB"@
    } else {
        "TB"@
    }
}

/// Tenths of `v / d`, rounded to nearest with ties to even.
pub open spec fn rounded_tenths(v: nat, d: nat) -> nat {
    let t = (v * 10) / d;
    let r = (v * 10) % d;
    if 2 * r > d || (2 * r == d && t % 2 == 1) {
        t + 1
    } else {
        t
    }
}

/// A byte count as people read it: whole bytes below a kilobyte, else the
/// size in the largest unit up to terabytes with one decimal.
pub open spec fn size_text(bytes: nat) -> Seq<char> {
    let v = as_double(bytes);
    let unit = size_unit(v);
    if unit == 0 {
        decimal(bytes) + " B"@
    } else {
        let t = rounded_tenths(v, unit_divisor(unit));
        decimal(t / 10).push('.').push(digit(t % 10)).push(' ') + unit_name(unit)
    }
}

fn double_of(bytes: u64) -> (v: u128)
    ensures
        v == as_double(bytes as nat),
        v < 0x4_0000_0000_0000_0000,
{
    let n = bytes as u128;
    let mut p: u128 = 1;
    while n / p >= 9_007_199_254_740_992 && 2 * p <= n
        invariant
            p >= 1,
            p <= n || p == 1,
            n == bytes,
            n < 0x1_0000_0000_0000_0000,
            significand_scale(n as nat, p as nat) == significand_scale(n as nat, 1),
        decreases n - p,
    {
        p = 2 * p;
    }
    let q = n / p;
    let r = n % p;
    let up = 2 * r > p || (2 * r == p && q % 2 == 1);
    let q2 = if up {
        q + 1
    } else {
        q
    };
    assert(q2 * p <= 2 * n + p) by (nonlinear_arith)
        requires
            q == n / p,
            p >= 1,
            q2 <= q + 1,
    ;
    assert(2 * n + p < 0x4_0000_0000_0000_0000);
    q2 * p
}

/// Formats a byte count for people.
pub fn human_size(bytes: u64) -> (s: String)
    ensures
        s@ == size_text(bytes as nat),
{
    let v = double_of(bytes);
    let (unit, divisor, name): (u64, u128, &str) = if v >= 1_099_511_627_776 {
        (4, 1_099_511_627_776, "TB")
    } else if v >= 1_073_741_824 {
        (3, 1_073_741_824, "GB")
    } else if v >= 1_048_576 {
        (2, 1_048_576, "MB")
    } else if v >= 1024 {
        (1, 1024, "KB")
    } else {
        (0, 1, "B")
    };
    let mut s = String::new();
    if unit == 0 {
        push_decimal(&mut s, bytes as u128);
        let suffix = chars_of(" B");
        push_chars(&mut s, suffix.as_slice());
        return s;
    }
    let t0 = (v * 10) / divisor;
    let r = (v * 10) % divisor;
    let t = if 2 * r > divisor || (2 * r == divisor && t0 % 2 == 1) {
        t0 + 1
    } else {
        t0
    };
    push_decimal(&mut s, t / 10);
    push_char(&mut s, '.');
    let d = (t % 10) as u8 + 48;
    push_char(&mut s, d as char);
    push_char(&mut s, ' ');
    let unit_chars = chars_of(name);
    push_chars(&mut s, unit_chars.as_slice());
    assert(s@ =~= size_text(bytes as nat));
    s
}

/// The most parts one collection names.
pub const MAX_PARTS: usize = 256;

/// The longest file name, in bytes.
pub const MAX_NAME_BYTES: usize = 255;

/// The longest content type, in bytes.
pub const MAX_CONTENT_TYPE_BYTES: usize = 128;

/// Bytes per part: the most a single manifest carries, 256 MiB.
pub const PART_BYTES: u64 = 268_435_456;

/// The object type of a collection header.
pub open spec fn collection_type() -> Seq<char> {
    "mininet/media-collection/v1"@
}

/// A signed object as the collection reader sees it: its id, type, public
/// payload (if the payload is public), links as `(rel, target)` pairs,
/// author and time, all as plain values.
#[derive(Debug, Clone, PartialEq, Eq)]
pub struct CollectionObject {
    pub id: String,
    pub object_type: String,
    pub public_payload: Option<Vec<u8>>,
    pub links: Vec<(String, String)>,
    pub author_human: String,
    pub timestamp_ms: u64,
}

/// Decoded collection header.
#[derive(Debug, Clone, PartialEq, Eq)]
pub struct Collection {
    pub id: String,
    pub name: String,
    pub content_type: String,
    pub total_len: u64,
    pub parts: Vec<String>,
    pub author: String,
    pub timestamp_ms: u64,
}

/// A string in a collection payload: its UTF-8 length as a big-endian
/// `u32`, then its bytes.
pub open spec fn payload_str(s: Seq<char>) -> Seq<u8> {
    be32(encode_utf8(s).len() as u32) + encode_utf8(s)
}

/// The payload of a collection header: version 1, the name, the content
/// type, and the total length as a big-endian `u64`.
pub open spec fn collection_payload_bytes(name: Seq<char>, content_type: Seq<char>, total_len: u64) -> Seq<u8> {
    seq![1u8] + payload_str(name) + payload_str(content_type) + be64(total_len)
}

/// The string at `pos` of at most `max` bytes, and where the next field
/// starts; nothing when it is too long, runs past the end or is not UTF-8.
pub open spec fn str_at(b: Seq<u8>, pos: nat, max: nat) -> Option<(Seq<char>, nat)> {
    if pos + 4 > b.len() {
        None
    } else {
        let n = be32_value(b.subrange(pos as int, pos + 4 as int)) as nat;
        if n > max || pos + 4 + n > b.len() || !valid_utf8(b.subrange(pos + 4 as int, (pos + 4 + n) as int)) {
            None
        } else {
            Some((decode_utf8(b.subrange(pos + 4 as int, (pos + 4 + n) as int)), pos + 4 + n))
        }
    }
}

/// The targets of the links whose relation is `part`, in order.
pub open spec fn part_targets(links: Seq<(String, String)>) -> Seq<Seq<char>>
    decreases links.len(),
{
    if links.len() == 0 {
        Seq::empty()
    } else if links.last().0@ == "part"@ {
        part_targets(links.drop_last()).push(links.last().1@)
    } else {
        part_targets(links.drop_last())
    }
}

/// A collection header as plain values.
pub struct CollectionView {
    pub id: Seq<char>,
    pub name: Seq<char>,
    pub content_type: Seq<char>,
    pub total_len: u64,
    pub parts: Seq<Seq<char>>,
    pub author: Seq<char>,
    pub timestamp_ms: u64,
}

/// The texts of a sequence of strings.
pub open spec fn string_texts(v: Seq<String>) -> Seq<Seq<char>> {
    Seq::new(v.len(), |i: int| v[i]@)
}

/// What reading an object as a collection header gives: the first failed
/// check refuses it.
pub open spec fn collection_outcome(o: CollectionObject) -> Result<CollectionView, Seq<char>> {
    if o.object_type@ != collection_type() {
        Err("not a media collection"@)
    } else {
        match o.public_payload {
            None => Err("collection payload is not public"@),
            Some(payload) => {
                let b = payload@;
                if b.len() == 0 || b[0] != 1 {
                    Err("unknown collection version"@)
                } else {
                    match str_at(b, 1, MAX_NAME_BYTES as nat) {
                        None => Err("malformed collection name"@),
                        Some((name, p1)) => match str_at(b, p1, MAX_CONTENT_TYPE_BYTES as nat) {
                            None => Err("malformed content type"@),
                            Some((content_type, p2)) => if p2 + 8 > b.len() {
                                Err("malformed length"@)
                            } else if p2 + 8 != b.len() {
                                Err("trailing bytes in collection"@)
                            } else {
                                let total_len = be64_value(b.subrange(p2 as int, p2 + 8 as int));
                                let parts = part_targets(o.links@);
                                if parts.len() == 0 || parts.len() > MAX_PARTS {
                                    Err("collection has no parts or too many"@)
                                } else if total_len > parts.len() * PART_BYTES {
                                    Err("collection length exceeds its parts"@)
                                } else {
                                    Ok(
                                        CollectionView {
                                            id: o.id@,
                                            name,
                                            content_type,
                                            total_len,
                                            parts,
                                            author: o.author_human@,
                                            timestamp_ms: o.timestamp_ms,
                                        },
                                    )
                                }
                            },
                        },
                    }
                }
            },
        }
    }
}

/// Appends a big-endian `u32`.
pub(crate) fn put_u32(out: &mut Vec<u8>, v: u32)
    ensures
        final(out)@ == old(out)@ + be32(v),
{
    out.push((v >> 24u32) as u8);
    out.push((v >> 16u32) as u8);
    out.push((v >> 8u32) as u8);
    out.push(v as u8);
    assert(out@ =~= old(out)@ + be32(v));
}

/// Appends a string as a payload field.
fn put_payload_str(out: &mut Vec<u8>, s: &str)
    ensures
        final(out)@ == old(out)@ + payload_str(s@),
{
    let bytes = s.as_bytes();
    put_u32(out, bytes.len() as u32);
    put_slice(out, bytes);
    assert(out@ =~= old(out)@ + payload_str(s@));
}

/// The payload a collection header carries.
pub fn collection_payload(name: &str, content_type: &str, total_len: u64) -> (b: Vec<u8>)
    ensures
        b@ == collection_payload_bytes(name@, content_type@, total_len),
{
    let mut out: Vec<u8> = Vec::new();
    out.push(1u8);
    put_payload_str(&mut out, name);
    put_payload_str(&mut out, content_type);
    put_u64(&mut out, total_len);
    assert(out@ =~= collection_payload_bytes(name@, content_type@, total_len));
    out
}

/// Reads the string at `pos` of at most `max` bytes.
fn read_payload_str(b: &[u8], pos: usize, max: usize) -> (r: Option<(String, usize)>)
    requires
        pos <= b@.len(),
    ensures
        match str_at(b@, pos as nat, max as nat) {
            Some((s, p)) => r matches Some((t, q)) && t@ == s && q == p,
            None => r is None,
        },
{
    if b.len() - pos < 4 {
        return None;
    }
    let head = slice_subrange(b, pos, pos + 4);
    let n = ((head[0] as u32) << 24u32 | (head[1] as u32) << 16u32 | (head[2] as u32) << 8u32
        | (head[3] as u32)) as usize;
    if n > max || b.len() - (pos + 4) < n {
        return None;
    }
    let raw = slice_to_vec(slice_subrange(b, pos + 4, pos + 4 + n));
    match string_from_utf8(raw) {
        Some(s) => Some((s, pos + 4 + n)),
        None => None,
    }
}

/// The targets of the `part` links, in order.
fn collect_parts(links: &Vec<(String, String)>) -> (parts: Vec<String>)
    ensures
        string_texts(parts@) == part_targets(links@),
{
    let mut parts: Vec<String> = Vec::new();
    let mut i: usize = 0;
    assert(links@.take(0) =~= Seq::<(String, String)>::empty());
    assert(string_texts(parts@) =~= Seq::<Seq<char>>::empty());
    while i < links.len()
        invariant
            i <= links@.len(),
            string_texts(parts@) == part_targets(links@.take(i as int)),
        decreases links@.len() - i,
    {
        proof {
            assert(links@.take(i + 1).drop_last() =~= links@.take(i as int));
            assert(links@.take(i + 1).last() == links@[i as int]);
        }
        let rel = chars_of(links[i].0.as_str());
        if equals(&rel, chars_of("part").as_slice()) {
            let ghost prev = parts@;
            parts.push(links[i].1.clone());
            assert(string_texts(parts@) =~= string_texts(prev).push(links@[i as int].1@));
        }
        i = i + 1;
    }
    assert(links@.take(i as int) =~= links@);
    parts
}

/// Read an object as a collection header: its type, its public payload
/// (version, name, content type, total length, nothing after), and its
/// `part` links, which must be between one and 256 and cover the length.
pub fn read_collection(object: &CollectionObject) -> (r: Result<Collection, String>)
    ensures
        match collection_outcome(*object) {
            Ok(c) => r matches Ok(v) && v.id@ == c.id && v.name@ == c.name && v.content_type@
                == c.content_type && v.total_len == c.total_len && string_texts(v.parts@)
                == c.parts && v.author@ == c.author && v.timestamp_ms == c.timestamp_ms,
            Err(m) => r matches Err(e) && e@ == m,
        },
{
    let kind = chars_of(object.object_type.as_str());
    if !equals(&kind, chars_of("mininet/media-collection/v1").as_slice()) {
        return Err(String::from_str("not a media collection"));
    }
    let bytes = match &object.public_payload {
        Some(b) => b,
        None => {
            return Err(String::from_str("collection payload is not public"));
        },
    };
    if bytes.len() == 0 || bytes[0] != 1u8 {
        return Err(String::from_str("unknown collection version"));
    }
    let (name, p1) = match read_payload_str(bytes.as_slice(), 1, MAX_NAME_BYTES) {
        Some(v) => v,
        None => {
            return Err(String::from_str("malformed collection name"));
        },
    };
    let (content_type, p2) = match read_payload_str(bytes.as_slice(), p1, MAX_CONTENT_TYPE_BYTES) {
        Some(v) => v,
        None => {
            return Err(String::from_str("malformed content type"));
        },
    };
    if bytes.len() - p2 < 8 {
        return Err(String::from_str("malformed length"));
    }
    if bytes.len() - p2 != 8 {
        return Err(String::from_str("trailing bytes in collection"));
    }
    let total_len = read_u64(slice_subrange(bytes.as_slice(), p2, p2 + 8));
    let parts = collect_parts(&object.links);
    if parts.len() == 0 || parts.len() > MAX_PARTS {
        return Err(String::from_str("collection has no parts or too many"));
    }
    if total_len as u128 > parts.len() as u128 * PART_BYTES as u128 {
        return Err(String::from_str("collection length exceeds its parts"));
    }
    Ok(
        Collection {
            id: object.id.clone(),
            name,
            content_type,
            total_len,
            parts,
            author: object.author_human.clone(),
            timestamp_ms: object.timestamp_ms,
        },
    )
}

/// Why a publish request is refused, if it is: the name, once trimmed,
/// must be 1 to 255 bytes and the content type 1 to 128 bytes.
pub open spec fn publish_refusal(name: Seq<char>, content_type: Seq<char>) -> Option<Seq<char>> {
    let n = encode_utf8(trim(name)).len();
    if n == 0 || n > MAX_NAME_BYTES {
        Some("name must be 1..=255 bytes"@)
    } else if encode_utf8(content_type).len() == 0 || encode_utf8(content_type).len()
        > MAX_CONTENT_TYPE_BYTES {
        Some("content type is empty or too long"@)
    } else {
        None
    }
}

/// Checks a publish request and gives the trimmed name.
pub fn check_publish(name: &str, content_type: &str) -> (r: Result<String, String>)
    ensures
        match publish_refusal(name@, content_type@) {
            Some(m) => r matches Err(e) && e@ == m,
            None => r matches Ok(t) && t@ == trim(name@),
        },
{
    let chars = chars_of(name);
    let (a, b) = trim_bounds(&chars);
    let trimmed = string_of(sub_chars(&chars, a, b).as_slice());
    let n = trimmed.as_str().as_bytes().len();
    if n == 0 || n > MAX_NAME_BYTES {
        return Err(String::from_str("name must be 1..=255 bytes"));
    }
    let c = content_type.as_bytes().len();
    if c == 0 || c > MAX_CONTENT_TYPE_BYTES {
        return Err(String::from_str("content type is empty or too long"));
    }
    Ok(trimmed)
}

/// How many parts a file of `total_len` bytes takes: each part holds up to
/// 256 MiB; an empty file, or one needing more than 256 parts, is refused.
pub fn parts_for(total_len: u64) -> (r: Result<usize, String>)
    ensures
        total_len == 0 ==> (r matches Err(e) && e@ == "the file is empty"@),
        total_len > 0 && (total_len + PART_BYTES - 1) / PART_BYTES as int > MAX_PARTS ==> (r matches Err(
            e,
        ) && e@ == "file is larger than 64 GiB, the most one collection can hold"@),
        total_len > 0 && (total_len + PART_BYTES - 1) / PART_BYTES as int <= MAX_PARTS ==> r
            == Ok::<usize, String>(((total_len + PART_BYTES - 1) / PART_BYTES as int) as usize),
{
    if total_len == 0 {
        return Err(String::from_str("the file is empty"));
    }
    let parts: u64 = total_len / PART_BYTES + if total_len % PART_BYTES == 0 {
        0
    } else {
        1
    };
    assert(parts == (total_len + PART_BYTES - 1) / PART_BYTES as int);
    if parts > MAX_PARTS as u64 {
        return Err(String::from_str("file is larger than 64 GiB, the most one collection can hold"));
    }
    Ok(parts as usize)
}

/// A collection header written for a publish reads back as what was
/// published: the name, content type and length from the payload, and the
/// parts from the links, when each fits its limit.
pub proof fn lemma_collection_round_trip(
    o: CollectionObject,
    name: Seq<char>,
    content_type: Seq<char>,
    total_len: u64,
)
    requires
        o.object_type@ == collection_type(),
        o.public_payload matches Some(p) && p@ == collection_payload_bytes(
            name,
            content_type,
            total_len,
        ),
        encode_utf8(name).len() <= MAX_NAME_BYTES,
        encode_utf8(content_type).len() <= MAX_CONTENT_TYPE_BYTES,
        1 <= part_targets(o.links@).len() <= MAX_PARTS,
        total_len <= part_targets(o.links@).len() * PART_BYTES,
    ensures
        collection_outcome(o) matches Ok(c) && c.id == o.id@ && c.name == name && c.content_type
            == content_type && c.total_len == total_len && c.parts == part_targets(o.links@)
            && c.author == o.author_human@ && c.timestamp_ms == o.timestamp_ms,
{
    let b = o.public_payload->Some_0@;
    let en = encode_utf8(name);
    let ec = encode_utf8(content_type);
    let p1: int = 5 + en.len() as int;
    let p2: int = p1 + 4 + ec.len();
    lemma_be32(en.len() as u32, Seq::empty());
    lemma_be32(ec.len() as u32, Seq::empty());
    lemma_be64_round_trip(total_len);
    assert(b.len() == p2 + 8);
    assert(b[0] == 1u8);
    assert(b.subrange(1, 5) =~= be32(en.len() as u32));
    assert(b.subrange(5, p1) =~= en);
    assert(b.subrange(p1, p1 + 4) =~= be32(ec.len() as u32));
    assert(b.subrange(p1 + 4, p2) =~= ec);
    assert(b.subrange(p2, p2 + 8) =~= be64(total_len));
    vstd::utf8::encode_utf8_valid_utf8(name);
    vstd::utf8::encode_utf8_decode_utf8(name);
    vstd::utf8::encode_utf8_valid_utf8(content_type);
    vstd::utf8::encode_utf8_decode_utf8(content_type);
    assert(str_at(b, 1, MAX_NAME_BYTES as nat) == Some((name, p1 as nat)));
    assert(str_at(b, p1 as nat, MAX_CONTENT_TYPE_BYTES as nat) == Some((content_type, p2 as nat)));
}

} // verus!
