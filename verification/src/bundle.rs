//! The bundle file that carries a store's objects between machines: the
//! magic `MINIBND1`, the object count as a big-endian `u32`, then each
//! object as a big-endian `u32` length followed by its bytes.
//!
//! Writing and reading go one object at a time, so that the caller can
//! fetch, parse and store each object in between.
use crate::conversation_state::{be32, be32_value, lemma_be32};
use crate::library::put_u32;
use crate::scalable_epoch_wire::put_slice;
use vstd::prelude::*;
use vstd::string::StringExecFns;

verus! {

/// At most this many objects travel in one bundle.
pub const MAX_BUNDLE_OBJECTS: usize = 10_000;

/// No object in a bundle is longer than this (16 MiB).
pub const MAX_BUNDLE_OBJECT_BYTES: usize = 16_777_216;

/// The bytes of `MINIBND1`.
pub open spec fn bundle_magic() -> Seq<u8> {
    seq![77u8, 73u8, 78u8, 73u8, 66u8, 78u8, 68u8, 49u8]
}

/// One object as it stands in a bundle.
pub open spec fn entry_bytes(object: Seq<u8>) -> Seq<u8> {
    be32(object.len() as u32) + object
}

/// Objects one after another.
pub open spec fn entries_bytes(objects: Seq<Seq<u8>>) -> Seq<u8>
    decreases objects.len(),
{
    if objects.len() == 0 {
        Seq::empty()
    } else {
        entries_bytes(objects.drop_last()) + entry_bytes(objects.last())
    }
}

/// The whole bundle for these objects.
pub open spec fn bundle_bytes(objects: Seq<Seq<u8>>) -> Seq<u8> {
    bundle_magic() + be32(objects.len() as u32) + entries_bytes(objects)
}

/// Where the entry of object `i` starts in `bundle_bytes(objects)`.
pub open spec fn entry_offset(objects: Seq<Seq<u8>>, i: int) -> int {
    12 + entries_bytes(objects.take(i)).len() as int
}

/// The header of `b`: the object count and where the first entry starts.
pub open spec fn header_outcome(b: Seq<u8>) -> Result<(nat, nat), Seq<char>> {
    if b.len() < 12 || b.subrange(0, 8) != bundle_magic() {
        Err("invalid Mininet bundle header"@)
    } else if be32_value(b.subrange(8, 12)) > MAX_BUNDLE_OBJECTS {
        Err("bundle exceeds object limit"@)
    } else {
        Ok((be32_value(b.subrange(8, 12)) as nat, 12nat))
    }
}

/// The entry of `b` at `offset`: where its object starts and ends.
pub open spec fn entry_outcome(b: Seq<u8>, offset: nat) -> Result<(nat, nat), Seq<char>> {
    if offset + 4 > b.len() {
        Err("truncated bundle"@)
    } else {
        let len = be32_value(b.subrange(offset as int, offset + 4int)) as nat;
        if len > MAX_BUNDLE_OBJECT_BYTES || offset + 4 + len > b.len() {
            Err("bundle object exceeds size limit"@)
        } else {
            Ok(((offset + 4) as nat, (offset + 4 + len) as nat))
        }
    }
}

/// Starts a bundle that will carry `count` objects: the magic and the count.
pub fn start_bundle(count: usize) -> (r: Result<Vec<u8>, String>)
    ensures
        count > MAX_BUNDLE_OBJECTS ==> (r matches Err(e) && e@
            == "local store exceeds export object limit"@),
        count <= MAX_BUNDLE_OBJECTS ==> (r matches Ok(b) && b@ == bundle_magic() + be32(
            count as u32,
        )),
{
    if count > MAX_BUNDLE_OBJECTS {
        return Err(String::from_str("local store exceeds export object limit"));
    }
    let mut b: Vec<u8> = Vec::new();
    b.push(77u8);
    b.push(73u8);
    b.push(78u8);
    b.push(73u8);
    b.push(66u8);
    b.push(78u8);
    b.push(68u8);
    b.push(49u8);
    assert(b@ =~= bundle_magic());
    put_u32(&mut b, count as u32);
    Ok(b)
}

/// Appends one object to a bundle, or refuses it, leaving the bundle as it
/// was, when it is longer than an entry may be.
pub fn append_object(bundle: &mut Vec<u8>, object: &[u8]) -> (r: Result<(), String>)
    ensures
        object@.len() > MAX_BUNDLE_OBJECT_BYTES ==> (r matches Err(e) && e@
            == "object exceeds export size limit"@ && final(bundle)@ == old(bundle)@),
        object@.len() <= MAX_BUNDLE_OBJECT_BYTES ==> (r is Ok && final(bundle)@ == old(bundle)@
            + entry_bytes(object@)),
{
    if object.len() > MAX_BUNDLE_OBJECT_BYTES {
        return Err(String::from_str("object exceeds export size limit"));
    }
    put_u32(bundle, object.len() as u32);
    put_slice(bundle, object);
    assert(final(bundle)@ =~= old(bundle)@ + entry_bytes(object@));
    Ok(())
}

/// Reads the four bytes at `pos` as a big-endian `u32`.
fn read_be32(bytes: &[u8], pos: usize) -> (v: u32)
    requires
        pos + 4 <= bytes@.len(),
    ensures
        v == be32_value(bytes@.subrange(pos as int, pos + 4)),
{
    ((bytes[pos] as u32) << 24u32) | ((bytes[pos + 1] as u32) << 16u32) | ((bytes[pos + 2] as u32)
        << 8u32) | (bytes[pos + 3] as u32)
}

/// Reads a bundle's header: the object count, and the offset of the first
/// entry.
pub fn read_bundle_header(bytes: &[u8]) -> (r: Result<(usize, usize), String>)
    ensures
        match header_outcome(bytes@) {
            Ok((count, offset)) => r matches Ok((c, o)) && c == count && o == offset,
            Err(m) => r matches Err(e) && e@ == m,
        },
{
    let magic_ok = bytes.len() >= 12 && bytes[0] == 77u8 && bytes[1] == 73u8 && bytes[2] == 78u8
        && bytes[3] == 73u8 && bytes[4] == 66u8 && bytes[5] == 78u8 && bytes[6] == 68u8 && bytes[7]
        == 49u8;
    proof {
        if bytes@.len() >= 12 {
            if magic_ok {
                assert(bytes@.subrange(0, 8) =~= bundle_magic());
            } else {
                if bytes@.subrange(0, 8) == bundle_magic() {
                    assert(bytes@[0] == bytes@.subrange(0, 8)[0]);
                    assert(bytes@[1] == bytes@.subrange(0, 8)[1]);
                    assert(bytes@[2] == bytes@.subrange(0, 8)[2]);
                    assert(bytes@[3] == bytes@.subrange(0, 8)[3]);
                    assert(bytes@[4] == bytes@.subrange(0, 8)[4]);
                    assert(bytes@[5] == bytes@.subrange(0, 8)[5]);
                    assert(bytes@[6] == bytes@.subrange(0, 8)[6]);
                    assert(bytes@[7] == bytes@.subrange(0, 8)[7]);
                }
            }
        }
    }
    if !magic_ok {
        return Err(String::from_str("invalid Mininet bundle header"));
    }
    let count = read_be32(bytes, 8);
    if count as usize > MAX_BUNDLE_OBJECTS {
        return Err(String::from_str("bundle exceeds object limit"));
    }
    Ok((count as usize, 12))
}

/// Reads the entry at `offset`: where its object starts and where it ends.
pub fn read_bundle_entry(bytes: &[u8], offset: usize) -> (r: Result<(usize, usize), String>)
    requires
        offset <= bytes@.len(),
    ensures
        match entry_outcome(bytes@, offset as nat) {
            Ok((start, end)) => r matches Ok((s, e)) && s == start && e == end,
            Err(m) => r matches Err(e) && e@ == m,
        },
{
    if bytes.len() - offset < 4 {
        return Err(String::from_str("truncated bundle"));
    }
    let length = read_be32(bytes, offset) as usize;
    let start = offset + 4;
    if length > MAX_BUNDLE_OBJECT_BYTES || length > bytes.len() - start {
        return Err(String::from_str("bundle object exceeds size limit"));
    }
    Ok((start, start + length))
}

/// Checks that the last entry ended where the bundle does.
pub fn finish_bundle(bytes: &[u8], offset: usize) -> (r: Result<(), String>)
    ensures
        offset == bytes@.len() ==> r is Ok,
        offset != bytes@.len() ==> (r matches Err(e) && e@ == "bundle has trailing bytes"@),
{
    if offset != bytes.len() {
        return Err(String::from_str("bundle has trailing bytes"));
    }
    Ok(())
}

proof fn lemma_entries_step(objects: Seq<Seq<u8>>, i: int)
    requires
        0 <= i < objects.len(),
    ensures
        entries_bytes(objects.take(i + 1)) == entries_bytes(objects.take(i)) + entry_bytes(
            objects[i],
        ),
{
    assert(objects.take(i + 1).drop_last() =~= objects.take(i));
    assert(objects.take(i + 1).last() == objects[i]);
}

proof fn lemma_entries_prefix(objects: Seq<Seq<u8>>, i: int, j: int)
    requires
        0 <= i <= j <= objects.len(),
    ensures
        entries_bytes(objects.take(i)).len() <= entries_bytes(objects.take(j)).len(),
        entries_bytes(objects.take(j)).subrange(0, entries_bytes(objects.take(i)).len() as int)
            == entries_bytes(objects.take(i)),
    decreases j - i,
{
    if i == j {
        assert(entries_bytes(objects.take(j)).subrange(
            0,
            entries_bytes(objects.take(i)).len() as int,
        ) =~= entries_bytes(objects.take(i)));
    } else {
        lemma_entries_prefix(objects, i, j - 1);
        lemma_entries_step(objects, j - 1);
        let a = entries_bytes(objects.take(j - 1));
        let e = entry_bytes(objects[j - 1]);
        let p = entries_bytes(objects.take(i));
        assert((a + e).subrange(0, p.len() as int) =~= a.subrange(0, p.len() as int));
    }
}

/// A bundle written for objects within the limits reads back entry by
/// entry: the header gives their count and the first offset, the entry at
/// each offset spans exactly its object and ends where the next one
/// starts, and the last entry ends where the bundle does.
pub proof fn lemma_bundle_round_trip(objects: Seq<Seq<u8>>)
    requires
        objects.len() <= MAX_BUNDLE_OBJECTS,
        forall|i: int| 0 <= i < objects.len() ==> #[trigger] objects[i].len() <= MAX_BUNDLE_OBJECT_BYTES,
    ensures
        header_outcome(bundle_bytes(objects)) == Ok::<(nat, nat), Seq<char>>(
            (objects.len(), 12nat),
        ),
        entry_offset(objects, 0) == 12,
        forall|i: int|
            0 <= i < objects.len() ==> entry_outcome(
                bundle_bytes(objects),
                #[trigger] entry_offset(objects, i) as nat,
            ) == Ok::<(nat, nat), Seq<char>>(
                ((entry_offset(objects, i) + 4) as nat, entry_offset(objects, i + 1) as nat),
            ) && bundle_bytes(objects).subrange(entry_offset(objects, i) + 4, entry_offset(objects, i + 1))
                == objects[i],
        entry_offset(objects, objects.len() as int) == bundle_bytes(objects).len(),
{
    let b = bundle_bytes(objects);
    let n = objects.len();
    let head = bundle_magic() + be32(n as u32);
    lemma_be32(n as u32, Seq::empty());
    assert(objects.take(n as int) =~= objects);
    assert(objects.take(0) =~= Seq::<Seq<u8>>::empty());
    assert(b.subrange(0, 8) =~= bundle_magic());
    assert(b.subrange(8, 12) =~= be32(n as u32));
    assert forall|i: int| 0 <= i < n implies entry_outcome(b, #[trigger] entry_offset(objects, i) as nat)
        == Ok::<(nat, nat), Seq<char>>(
        ((entry_offset(objects, i) + 4) as nat, entry_offset(objects, i + 1) as nat),
    ) && b.subrange(entry_offset(objects, i) + 4, entry_offset(objects, i + 1)) == objects[i] by {
        lemma_entries_prefix(objects, i + 1, n as int);
        lemma_entries_step(objects, i);
        let p = entries_bytes(objects.take(i));
        let o = objects[i];
        let e = entry_bytes(o);
        let all = entries_bytes(objects);
        let off: int = 12 + p.len() as int;
        lemma_be32(o.len() as u32, Seq::empty());
        assert(all.subrange(0, (p + e).len() as int) == p + e);
        assert(b =~= head + all);
        assert(b.subrange(off, off + 4) =~= be32(o.len() as u32)) by {
            assert forall|k: int| 0 <= k < 4 implies #[trigger] b.subrange(off, off + 4)[k] == be32(
                o.len() as u32,
            )[k] by {
                assert(b[off + k] == all[p.len() + k]);
                assert(all[p.len() + k] == (p + e)[p.len() + k]);
            }
        }
        assert(b.subrange(off + 4, off + 4 + o.len()) =~= o) by {
            assert forall|k: int| 0 <= k < o.len() implies #[trigger] b.subrange(off + 4, off + 4 + o.len())[k]
                == o[k] by {
                assert(b[off + 4 + k] == all[p.len() + 4 + k]);
                assert(all[p.len() + 4 + k] == (p + e)[p.len() + 4 + k]);
            }
        }
    }
}

} // verus!
