//! A local mute list: DIDs whose posts, profile suggestions and directory
//! entries this device hides. It is a device-local viewing choice: nothing
//! is published, nothing is deleted from the store, and a muted author's
//! objects still replicate to others exactly as before.
//!
//! Entries are kept as canonical did:mini text in string order. Whether a
//! text is a did:mini identifier is the did:mini parser's verdict, which
//! the caller hands in (see `crate::did`): a text it refused, or did not
//! check, is refused here.
use crate::did::{verdict_in, DidVerdicts};
use crate::lexorder::{compare_strings, lemma_str_irrefl, lemma_str_total, lemma_str_trans, str_lt, Cmp};
use crate::records::{lemma_lines_cons, line_ranges, lines, strip_cr, sub_chars};
use crate::text::{chars_of, push_chars, string_of, trim, trim_bounds};
use vstd::prelude::*;
use vstd::string::StringExecFns;

verus! {

/// The most identities one list holds.
pub const MAX_MUTED: usize = 4096;

/// Muted DIDs, in string order, each once.
#[derive(Debug, Clone, PartialEq, Eq)]
pub struct MuteList {
    dids: Vec<String>,
}

/// Each string sorts strictly before the next.
pub open spec fn sorted(s: Seq<Seq<char>>) -> bool {
    forall|i: int, j: int| 0 <= i < j < s.len() ==> str_lt(#[trigger] s[i], #[trigger] s[j])
}

/// The texts of a sequence of strings.
pub open spec fn texts(v: Seq<String>) -> Seq<Seq<char>> {
    v.map_values(|d: String| d@)
}

/// The first line of a saved list.
pub open spec fn header() -> Seq<char> {
    "mininet-muted/1"@
}

/// One line per entry, each ended by a line feed.
pub open spec fn entry_text(es: Seq<Seq<char>>) -> Seq<char>
    decreases es.len(),
{
    if es.len() == 0 {
        Seq::empty()
    } else {
        es[0] + seq!['\n'] + entry_text(es.drop_first())
    }
}

/// The saved form of a list with these entries.
pub open spec fn encoding(es: Seq<Seq<char>>) -> Seq<char> {
    header() + seq!['\n'] + entry_text(es)
}

/// What muting `did` does to the set `muted`, given the parser's verdicts:
/// the canonical text of the trimmed DID joins it, unless the parser
/// refused (or never saw) that text, or the list is full and does not hold
/// it yet.
pub open spec fn mute_outcome(muted: Set<Seq<char>>, did: Seq<char>, vs: Seq<(Seq<char>, Result<Seq<char>, Seq<char>>)>) -> Result<
    Set<Seq<char>>,
    Seq<char>,
> {
    match verdict_in(vs, trim(did)) {
        Some(Ok(d)) => if !muted.contains(d) && muted.len() >= MAX_MUTED {
            Err("at most 4096 identities can be muted"@)
        } else {
            Ok(muted.insert(d))
        },
        Some(Err(e)) => Err("not a did:mini identifier: "@ + e),
        None => Err("not a did:mini identifier"@),
    }
}

/// Mutes each non-blank line in turn, stopping at the first refusal.
pub open spec fn mute_lines(muted: Set<Seq<char>>, ls: Seq<Seq<char>>, vs: Seq<(Seq<char>, Result<Seq<char>, Seq<char>>)>) -> Result<
    Set<Seq<char>>,
    Seq<char>,
>
    decreases ls.len(),
{
    if ls.len() == 0 {
        Ok(muted)
    } else if trim(ls[0]).len() == 0 {
        mute_lines(muted, ls.drop_first(), vs)
    } else {
        match mute_outcome(muted, ls[0], vs) {
            Err(m) => Err(m),
            Ok(next) => mute_lines(next, ls.drop_first(), vs),
        }
    }
}

/// What reading a saved list gives: a bad first line refuses the whole
/// text, and so does any line that cannot be muted.
pub open spec fn decoding(text: Seq<char>, vs: Seq<(Seq<char>, Result<Seq<char>, Seq<char>>)>) -> Result<Set<Seq<char>>, Seq<char>> {
    let ls = lines(text);
    if ls.len() == 0 || trim(ls[0]) != header() {
        Err("unrecognized mute list header"@)
    } else {
        mute_lines(Set::empty(), ls.skip(1), vs)
    }
}

impl MuteList {
    /// The muted DIDs in string order.
    pub closed spec fn entries(&self) -> Seq<Seq<char>> {
        texts(self.dids@)
    }

    /// Entries are in strict string order and no more than the limit.
    pub open spec fn wf(&self) -> bool {
        &&& sorted(self.entries())
        &&& self.entries().len() <= MAX_MUTED
    }

    /// An empty list.
    pub fn new() -> (l: MuteList)
        ensures
            l.wf(),
            l.entries() == Seq::<Seq<char>>::empty(),
            l@ == Set::<Seq<char>>::empty(),
    {
        let l = MuteList { dids: Vec::new() };
        assert(l.entries() =~= Seq::<Seq<char>>::empty());
        assert(l@ =~= Set::<Seq<char>>::empty());
        l
    }

    /// Whether exactly this text is muted.
    pub fn contains(&self, did: &str) -> (b: bool)
        ensures
            b == self@.contains(did@),
    {
        let target = String::from_str(did);
        let mut i: usize = 0;
        while i < self.dids.len()
            invariant
                i <= self.dids@.len(),
                target@ == did@,
                forall|j: int| 0 <= j < i ==> (#[trigger] self.dids@[j])@ != did@,
            decreases self.dids@.len() - i,
        {
            if self.dids[i] == target {
                assert(self.entries()[i as int] == did@);
                return true;
            }
            i = i + 1;
        }
        proof {
            if self.entries().contains(did@) {
                let j = choose|j: int| 0 <= j < self.entries().len() && self.entries()[j] == did@;
                assert(self.dids@[j]@ == did@);
            }
        }
        false
    }

    /// How many identities are muted.
    pub fn len(&self) -> (n: usize)
        requires
            self.wf(),
        ensures
            n == self@.len(),
            n == self.entries().len(),
    {
        proof {
            lemma_sorted_set_len(self.entries());
        }
        self.dids.len()
    }

    /// Whether nothing is muted.
    pub fn is_empty(&self) -> (b: bool)
        requires
            self.wf(),
        ensures
            b == (self@.len() == 0),
    {
        self.len() == 0
    }

    /// The muted DIDs in string order.
    pub fn iter(&self) -> (v: Vec<String>)
        ensures
            texts(v@) == self.entries(),
    {
        let mut v: Vec<String> = Vec::new();
        let mut i: usize = 0;
        while i < self.dids.len()
            invariant
                i <= self.dids@.len(),
                v@.len() == i,
                self.entries().len() == self.dids@.len(),
                texts(v@) == self.entries().take(i as int),
            decreases self.dids@.len() - i,
        {
            let c = self.dids[i].clone();
            let ghost prev = v@;
            v.push(c);
            proof {
                assert forall|j: int| 0 <= j <= i implies #[trigger] texts(v@)[j] == self.entries()[j] by {
                    if j < i {
                        assert(texts(prev)[j] == self.entries().take(i as int)[j]);
                        assert(v@[j] == prev[j]);
                    } else {
                        assert(v@[j] == c);
                    }
                }
            }
            i = i + 1;
            assert(texts(v@) =~= self.entries().take(i as int));
        }
        assert(self.entries().take(i as int) =~= self.entries());
        v
    }

    /// Where `t` stands or would stand: every entry before the position
    /// sorts before `t`; the second part says whether the entry at the
    /// position is `t` itself.
    fn position(&self, t: &String) -> (r: (usize, bool))
        requires
            self.wf(),
        ensures
            r.0 <= self.entries().len(),
            forall|j: int| 0 <= j < r.0 ==> str_lt(#[trigger] self.entries()[j], t@),
            r.1 ==> r.0 < self.entries().len() && self.entries()[r.0 as int] == t@,
            !r.1 ==> r.0 == self.entries().len() || str_lt(t@, self.entries()[r.0 as int]),
            r.1 == self.entries().contains(t@),
    {
        let mut i: usize = 0;
        while i < self.dids.len()
            invariant
                i <= self.dids@.len(),
                self.wf(),
                self.entries().len() == self.dids@.len(),
                forall|j: int| 0 <= j < i ==> str_lt(#[trigger] self.entries()[j], t@),
            decreases self.dids@.len() - i,
        {
            match compare_strings(&self.dids[i], t) {
                Cmp::Less => {
                    assert(self.entries()[i as int] == self.dids@[i as int]@);
                    i = i + 1;
                },
                Cmp::Equal => {
                    assert(self.entries()[i as int] == self.dids@[i as int]@);
                    return (i, true);
                },
                Cmp::Greater => {
                    proof {
                        assert(self.entries()[i as int] == self.dids@[i as int]@);
                        assert forall|j: int|
                            0 <= j < self.entries().len() implies #[trigger] self.entries()[j]
                            != t@ by {
                            if j < i {
                                lemma_str_irrefl(t@);
                            } else if j > i {
                                lemma_str_trans(t@, self.entries()[i as int], self.entries()[j]);
                                lemma_str_irrefl(t@);
                            } else {
                                lemma_str_irrefl(t@);
                            }
                        }
                    }
                    return (i, false);
                },
            }
        }
        proof {
            assert forall|j: int| 0 <= j < self.entries().len() implies #[trigger] self.entries()[j]
                != t@ by {
                lemma_str_irrefl(t@);
            }
        }
        (i, false)
    }

    /// Mute a DID, given as text that is trimmed first and judged by the
    /// parser's `verdicts`; the canonical text is what is kept. Returns
    /// `false` if it was already muted; refuses a text the parser refused
    /// or never saw, and a new identity once the list is full.
    pub fn mute(&mut self, did: &str, verdicts: &DidVerdicts) -> (r: Result<bool, String>)
        requires
            old(self).wf(),
        ensures
            final(self).wf(),
            match mute_outcome(old(self)@, did@, verdicts@) {
                Err(m) => r matches Err(e) && e@ == m && final(self).entries()
                    == old(self).entries(),
                Ok(next) => r matches Ok(b) && final(self)@ == next && (verdicts.verdict(
                    trim(did@),
                ) matches Some(Ok(d)) && b == !old(self)@.contains(d)),
            },
    {
        let chars = chars_of(did);
        let (a, b) = trim_bounds(&chars);
        let t = string_of(sub_chars(&chars, a, b).as_slice());
        proof {
            lemma_sorted_set_len(self.entries());
        }
        let c = match verdicts.lookup(&t) {
            Some(Ok(c)) => c,
            Some(Err(e)) => {
                let mut m = String::from_str("not a did:mini identifier: ");
                m.append(e.as_str());
                return Err(m);
            },
            None => {
                return Err(String::from_str("not a did:mini identifier"));
            },
        };
        let (i, found) = self.position(&c);
        if found {
            proof {
                assert(self@.insert(c@) =~= self@);
            }
            return Ok(false);
        }
        if self.dids.len() >= MAX_MUTED {
            return Err(String::from_str("at most 4096 identities can be muted"));
        }
        let ghost before = self.entries();
        let ghost cv = c@;
        self.dids.insert(i, c);
        proof {
            assert(self.entries() =~= before.insert(i as int, cv));
            lemma_insert_sorted(before, i as int, cv);
            lemma_insert_to_set(before, i as int, cv);
        }
        Ok(true)
    }

    /// Unmute a DID, given as text that is trimmed first. Returns whether
    /// it was muted.
    pub fn unmute(&mut self, did: &str) -> (b: bool)
        requires
            old(self).wf(),
        ensures
            final(self).wf(),
            b == old(self)@.contains(trim(did@)),
            final(self)@ == old(self)@.remove(trim(did@)),
    {
        let chars = chars_of(did);
        let (a, e) = trim_bounds(&chars);
        let t = string_of(sub_chars(&chars, a, e).as_slice());
        let (i, found) = self.position(&t);
        if !found {
            assert(self@.remove(t@) =~= self@);
            return false;
        }
        let ghost before = self.entries();
        self.dids.remove(i);
        proof {
            assert(self.entries() =~= before.remove(i as int));
            lemma_remove_sorted(before, i as int);
            assert(self@ =~= before.to_set().remove(t@));
        }
        true
    }

    /// The saved form: a header line, then one line per DID in order.
    pub fn encode(&self) -> (s: String)
        ensures
            s@ == encoding(self.entries()),
    {
        let mut out = String::from_str("mininet-muted/1");
        push_chars(&mut out, &['\n']);
        let mut i: usize = 0;
        assert(self.entries().take(0) =~= Seq::<Seq<char>>::empty());
        while i < self.dids.len()
            invariant
                i <= self.dids@.len(),
                self.entries().len() == self.dids@.len(),
                out@ == header() + seq!['\n'] + entry_text(self.entries().take(i as int)),
            decreases self.dids@.len() - i,
        {
            out.append(self.dids[i].as_str());
            push_chars(&mut out, &['\n']);
            proof {
                lemma_entry_text_push(self.entries().take(i as int), self.dids@[i as int]@);
                assert(self.entries().take(i as int).push(self.dids@[i as int]@) =~= self.entries().take(
                    i + 1,
                ));
            }
            i = i + 1;
        }
        assert(self.entries().take(i as int) =~= self.entries());
        out
    }

    /// Read a saved list, each line judged by the parser's `verdicts`.
    /// Strict: a bad header or a line that cannot be muted (a text that is
    /// not a did:mini identifier among them) refuses the whole text, so a damaged list never silently
    /// unmutes anyone.
    pub fn decode(text: &str, verdicts: &DidVerdicts) -> (r: Result<MuteList, String>)
        ensures
            match decoding(text@, verdicts@) {
                Ok(muted) => r matches Ok(l) && l.wf() && l@ == muted,
                Err(m) => r matches Err(e) && e@ == m,
            },
    {
        let chars = chars_of(text);
        let ranges = line_ranges(&chars);
        let ghost ls = lines(chars@);
        if ranges.len() == 0 {
            return Err(String::from_str("unrecognized mute list header"));
        }
        let first = sub_chars(&chars, ranges[0].0, ranges[0].1);
        let (a, b) = trim_bounds(&first);
        let head = sub_chars(&first, a, b);
        let expected = chars_of("mininet-muted/1");
        if !crate::text::equals(&head, expected.as_slice()) {
            return Err(String::from_str("unrecognized mute list header"));
        }
        let mut list = MuteList::new();
        let mut k: usize = 1;
        proof {
            assert(ls.skip(1).skip(0) =~= ls.skip(1));
        }
        while k < ranges.len()
            invariant
                1 <= k <= ranges@.len(),
                ranges@.len() == ls.len(),
                ls == lines(chars@),
                chars@ == text@,
                forall|j: int|
                    0 <= j < ranges@.len() ==> (#[trigger] ranges@[j]).0 <= ranges@[j].1
                        <= chars@.len() && chars@.subrange(ranges@[j].0 as int, ranges@[j].1 as int)
                        == ls[j],
                list.wf(),
                ls.len() > 0 && trim(ls[0]) == header(),
                mute_lines(Set::empty(), ls.skip(1), verdicts@) == mute_lines(
                    list@,
                    ls.skip(k as int),
                    verdicts@,
                ),
            decreases ranges@.len() - k,
        {
            let line = sub_chars(&chars, ranges[k].0, ranges[k].1);
            let ghost rest = ls.skip(k as int);
            proof {
                assert(ranges@[k as int].0 <= ranges@[k as int].1 <= chars@.len());
                assert(line@ == ls[k as int]);
                assert(rest[0] == ls[k as int]);
                assert(rest.drop_first() =~= ls.skip(k + 1));
            }
            let (ta, tb) = trim_bounds(&line);
            if ta < tb {
                let text_line = string_of(line.as_slice());
                match list.mute(text_line.as_str(), verdicts) {
                    Ok(_) => {},
                    Err(e) => {
                        return Err(e);
                    },
                }
            }
            k = k + 1;
        }
        assert(ls.skip(k as int).len() == 0);
        Ok(list)
    }
}

impl View for MuteList {
    type V = Set<Seq<char>>;

    /// The set of muted DIDs.
    closed spec fn view(&self) -> Set<Seq<char>> {
        self.entries().to_set()
    }
}

/// Text that fits on one saved line as itself: trimmed, not blank, and
/// without a line feed.
pub open spec fn line_safe(e: Seq<char>) -> bool {
    &&& trim(e) == e
    &&& e.len() > 0
    &&& !e.contains('\n')
}

/// Reading back a saved list gives the same set of muted DIDs, when every
/// entry fits on one line as itself and the parser takes each entry as its
/// own canonical text.
pub proof fn lemma_mute_list_round_trip(l: MuteList, vs: Seq<(Seq<char>, Result<Seq<char>, Seq<char>>)>)
    requires
        l.wf(),
        forall|i: int| 0 <= i < l.entries().len() ==> line_safe(#[trigger] l.entries()[i]),
        forall|i: int|
            0 <= i < l.entries().len() ==> verdict_in(vs, #[trigger] l.entries()[i]) == Some(
                Ok::<Seq<char>, Seq<char>>(l.entries()[i]),
            ),
    ensures
        decoding(encoding(l.entries()), vs) == Ok::<Set<Seq<char>>, Seq<char>>(l@),
{
    let es = l.entries();
    reveal_strlit("mininet-muted/1");
    let h = header();
    assert(h.len() == 15);
    assert forall|j: int| 0 <= j < h.len() implies #[trigger] h[j] != '\n' by {}
    assert(!h.contains('\n'));
    assert(!crate::text::is_space(h[0]));
    assert(crate::text::leading_space(h) == 0);
    assert(h.skip(0) =~= h);
    assert(!crate::text::is_space(h.last()));
    assert(crate::text::trailing_space(h) == 0);
    assert(trim(h) =~= h);
    assert(strip_cr(h) == h);
    lemma_lines_entries(es);
    assert(encoding(es) == h + seq!['\n'] + entry_text(es));
    lemma_lines_cons(h, entry_text(es));
    let ls = lines(encoding(es));
    assert(ls == seq![h] + es);
    assert(ls.skip(1) =~= es);
    lemma_sorted_set_len(es);
    lemma_mute_all(Set::empty(), es, vs);
    assert(Set::<Seq<char>>::empty().union(es.to_set()) =~= es.to_set());
}

proof fn lemma_lines_entries(es: Seq<Seq<char>>)
    requires
        forall|i: int| 0 <= i < es.len() ==> line_safe(#[trigger] es[i]),
    ensures
        lines(entry_text(es)) == es,
    decreases es.len(),
{
    if es.len() == 0 {
        assert(lines(entry_text(es)) =~= es);
    } else {
        let e = es[0];
        assert(line_safe(es[0]));
        crate::text::lemma_trimmed_ends(e);
        assert(strip_cr(e) == e);
        assert forall|i: int| 0 <= i < es.drop_first().len() implies line_safe(
            #[trigger] es.drop_first()[i],
        ) by {
            assert(es.drop_first()[i] == es[i + 1]);
        }
        lemma_lines_entries(es.drop_first());
        lemma_lines_cons(e, entry_text(es.drop_first()));
        assert(lines(entry_text(es)) =~= es);
    }
}

proof fn lemma_mute_all(muted: Set<Seq<char>>, es: Seq<Seq<char>>, vs: Seq<(Seq<char>, Result<Seq<char>, Seq<char>>)>)
    requires
        forall|i: int|
            0 <= i < es.len() ==> verdict_in(vs, #[trigger] es[i]) == Some(
                Ok::<Seq<char>, Seq<char>>(es[i]),
            ),
        muted.finite(),
        muted.len() + es.len() <= MAX_MUTED,
        es.no_duplicates(),
        forall|i: int| 0 <= i < es.len() ==> line_safe(#[trigger] es[i]),
        forall|i: int| 0 <= i < es.len() ==> !muted.contains(#[trigger] es[i]),
    ensures
        mute_lines(muted, es, vs) == Ok::<Set<Seq<char>>, Seq<char>>(muted.union(es.to_set())),
    decreases es.len(),
{
    if es.len() == 0 {
        assert(muted.union(es.to_set()) =~= muted);
    } else {
        let e = es[0];
        assert(line_safe(es[0]));
        assert(!muted.contains(es[0]));
        assert(trim(e).len() > 0);
        crate::text::lemma_trimmed_ends(e);
        assert(verdict_in(vs, es[0]) == Some(Ok::<Seq<char>, Seq<char>>(es[0])));
        assert(mute_outcome(muted, e, vs) == Ok::<Set<Seq<char>>, Seq<char>>(muted.insert(e)));
        let next = muted.insert(e);
        let tail = es.drop_first();
        assert(next.len() == muted.len() + 1);
        assert forall|i: int| 0 <= i < tail.len() implies line_safe(#[trigger] tail[i]) by {
            assert(tail[i] == es[i + 1]);
        }
        assert forall|i: int| 0 <= i < tail.len() implies !next.contains(#[trigger] tail[i]) by {
            assert(tail[i] == es[i + 1]);
            assert(es[i + 1] != es[0]);
        }
        assert(tail.no_duplicates()) by {
            assert forall|i: int, j: int|
                0 <= i < tail.len() && 0 <= j < tail.len() && i != j implies tail[i] != tail[j] by {
                assert(tail[i] == es[i + 1] && tail[j] == es[j + 1]);
            }
        }
        assert forall|i: int| 0 <= i < tail.len() implies verdict_in(vs, #[trigger] tail[i]) == Some(
            Ok::<Seq<char>, Seq<char>>(tail[i]),
        ) by {
            assert(tail[i] == es[i + 1]);
        }
        lemma_mute_all(next, tail, vs);
        assert forall|x: Seq<char>| #[trigger] next.union(tail.to_set()).contains(x)
            == muted.union(es.to_set()).contains(x) by {
            if tail.contains(x) {
                let a = choose|a: int| 0 <= a < tail.len() && tail[a] == x;
                assert(es[a + 1] == x);
            }
            if es.contains(x) {
                let a = choose|a: int| 0 <= a < es.len() && es[a] == x;
                if a > 0 {
                    assert(tail[a - 1] == x);
                }
            }
        }
        assert(next.union(tail.to_set()) =~= muted.union(es.to_set()));
    }
}

/// A sorted list has no repeats, so its set has as many members.
proof fn lemma_sorted_set_len(s: Seq<Seq<char>>)
    requires
        sorted(s),
    ensures
        s.to_set().len() == s.len(),
        s.no_duplicates(),
{
    assert forall|i: int, j: int| 0 <= i < s.len() && 0 <= j < s.len() && i != j implies s[i]
        != s[j] by {
        lemma_str_irrefl(s[i]);
    }
    s.unique_seq_to_set();
}

proof fn lemma_insert_sorted(s: Seq<Seq<char>>, i: int, t: Seq<char>)
    requires
        sorted(s),
        0 <= i <= s.len(),
        forall|j: int| 0 <= j < i ==> str_lt(#[trigger] s[j], t),
        i == s.len() || str_lt(t, s[i]),
    ensures
        sorted(s.insert(i, t)),
{
    let u = s.insert(i, t);
    assert forall|a: int, b: int| 0 <= a < b < u.len() implies str_lt(#[trigger] u[a], #[trigger] u[b]) by {
        if b < i {
            assert(u[a] == s[a] && u[b] == s[b]);
        } else if b == i {
            assert(u[a] == s[a]);
        } else if a < i {
            assert(u[a] == s[a] && u[b] == s[b - 1]);
            if b - 1 > i {
                lemma_str_trans(t, s[i], s[b - 1]);
            }
            lemma_str_trans(s[a], t, s[b - 1]);
        } else if a == i {
            assert(u[b] == s[b - 1]);
            if b - 1 > i {
                lemma_str_trans(t, s[i], s[b - 1]);
            }
        } else {
            assert(u[a] == s[a - 1] && u[b] == s[b - 1]);
        }
    }
}

proof fn lemma_remove_sorted(s: Seq<Seq<char>>, i: int)
    requires
        sorted(s),
        0 <= i < s.len(),
    ensures
        sorted(s.remove(i)),
        s.remove(i).to_set() == s.to_set().remove(s[i]),
{
    let u = s.remove(i);
    assert forall|a: int, b: int| 0 <= a < b < u.len() implies str_lt(#[trigger] u[a], #[trigger] u[b]) by {
        let sa = if a < i { a } else { a + 1 };
        let sb = if b < i { b } else { b + 1 };
        assert(u[a] == s[sa] && u[b] == s[sb]);
    }
    lemma_sorted_set_len(s);
    assert forall|x: Seq<char>| #[trigger] u.to_set().contains(x) == s.to_set().remove(s[i]).contains(x) by {
        if u.contains(x) {
            let a = choose|a: int| 0 <= a < u.len() && u[a] == x;
            let sa = if a < i { a } else { a + 1 };
            assert(s[sa] == x);
            assert(sa != i);
        }
        if s.contains(x) && x != s[i] {
            let a = choose|a: int| 0 <= a < s.len() && s[a] == x;
            let ua = if a < i { a } else { a - 1 };
            assert(a != i);
            assert(u[ua] == x);
        }
    }
    assert(u.to_set() =~= s.to_set().remove(s[i]));
}

proof fn lemma_entry_text_push(es: Seq<Seq<char>>, e: Seq<char>)
    ensures
        entry_text(es.push(e)) == entry_text(es) + e + seq!['\n'],
    decreases es.len(),
{
    let p = es.push(e);
    if es.len() == 0 {
        assert(p[0] == e);
        assert(p.drop_first() =~= Seq::<Seq<char>>::empty());
        assert(entry_text(p.drop_first()) == Seq::<char>::empty());
        assert(entry_text(es) == Seq::<char>::empty());
        assert(entry_text(p) =~= entry_text(es) + e + seq!['\n']);
    } else {
        lemma_entry_text_push(es.drop_first(), e);
        assert(p[0] == es[0]);
        assert(p.drop_first() =~= es.drop_first().push(e));
        assert(entry_text(p) == es[0] + seq!['\n'] + entry_text(es.drop_first().push(e)));
        assert(entry_text(p) =~= entry_text(es) + e + seq!['\n']);
    }
}

proof fn lemma_insert_to_set(s: Seq<Seq<char>>, i: int, t: Seq<char>)
    requires
        0 <= i <= s.len(),
    ensures
        s.insert(i, t).to_set() == s.to_set().insert(t),
{
    let u = s.insert(i, t);
    assert forall|x: Seq<char>| #[trigger] u.to_set().contains(x) == s.to_set().insert(t).contains(x) by {
        if u.contains(x) {
            let a = choose|a: int| 0 <= a < u.len() && u[a] == x;
            if a < i {
                assert(s[a] == x);
            } else if a > i {
                assert(s[a - 1] == x);
            }
        }
        if s.contains(x) {
            let a = choose|a: int| 0 <= a < s.len() && s[a] == x;
            if a < i {
                assert(u[a] == x);
            } else {
                assert(u[a + 1] == x);
            }
        }
        if x == t {
            assert(u[i] == t);
        }
    }
    assert(u.to_set() =~= s.to_set().insert(t));
}

} // verus!
