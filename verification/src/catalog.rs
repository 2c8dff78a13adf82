//! The media catalog's vocabulary: kinds of media and their labels, sort
//! orders, and how a caption becomes a title and a description.
use crate::player::{playback_for, playback_of, Playback};
use crate::lexorder::{compare_strings, lemma_str_total, lemma_str_trans, str_lt, Cmp};
use crate::records::sub_chars;
use crate::text::{
    chars_of, contains_text, equals, find_text, is_space, is_whitespace, is_word, string_of,
    to_lowercase, trim, trim_bounds, unicode_lower,
};
use vstd::prelude::*;
use vstd::string::StringExecFns;

verus! {

/// The most entries one catalog lists.
pub const MAX_ENTRIES: usize = 2_000;

#[derive(Debug, Clone, Copy, PartialEq, Eq, Structural)]
pub enum Kind {
    Video,
    Music,
    Image,
    Animation,
    File,
}

pub open spec fn kind_label(k: Kind) -> Seq<char> {
    match k {
        Kind::Video => "Video"@,
        Kind::Music => "Music"@,
        Kind::Image => "Image"@,
        Kind::Animation => "GIF"@,
        Kind::File => "File"@,
    }
}

pub open spec fn kind_glyph(k: Kind) -> Seq<char> {
    match k {
        Kind::Video => "🎬"@,
        Kind::Music => "♫"@,
        Kind::Image => "🖼"@,
        Kind::Animation => "🎬"@,
        Kind::File => "📋"@,
    }
}

/// The catalog kind for a playback.
pub open spec fn kind_of(p: Playback) -> Kind {
    match p {
        Playback::Video | Playback::VideoUnsupported => Kind::Video,
        Playback::Audio => Kind::Music,
        Playback::Image => Kind::Image,
        Playback::Animation => Kind::Animation,
        Playback::Other => Kind::File,
    }
}

impl Kind {
    pub fn label(self) -> (s: &'static str)
        ensures
            s@ == kind_label(self),
    {
        match self {
            Kind::Video => "Video",
            Kind::Music => "Music",
            Kind::Image => "Image",
            Kind::Animation => "GIF",
            Kind::File => "File",
        }
    }

    pub fn glyph(self) -> (s: &'static str)
        ensures
            s@ == kind_glyph(self),
    {
        match self {
            Kind::Video => "🎬",
            Kind::Music => "♫",
            Kind::Image => "🖼",
            Kind::Animation => "🎬",
            Kind::File => "📋",
        }
    }

    pub fn from_content_type(content_type: &str) -> (k: Kind)
        ensures
            k == kind_of(playback_of(content_type@)),
    {
        match playback_for(content_type) {
            Playback::Video | Playback::VideoUnsupported => Kind::Video,
            Playback::Audio => Kind::Music,
            Playback::Image => Kind::Image,
            Playback::Animation => Kind::Animation,
            Playback::Other => Kind::File,
        }
    }
}

#[derive(Debug, Clone, Copy, PartialEq, Eq, Structural)]
pub enum Sort {
    Newest,
    MostLiked,
    MostDiscussed,
}

pub open spec fn sort_label(s: Sort) -> Seq<char> {
    match s {
        Sort::Newest => "Newest"@,
        Sort::MostLiked => "Most liked"@,
        Sort::MostDiscussed => "Most discussed"@,
    }
}

impl Sort {
    pub fn label(self) -> (s: &'static str)
        ensures
            s@ == sort_label(self),
    {
        match self {
            Sort::Newest => "Newest",
            Sort::MostLiked => "Most liked",
            Sort::MostDiscussed => "Most discussed",
        }
    }
}

/// The position of the first line break in `s`, if any.
pub open spec fn first_newline(s: Seq<char>) -> Option<nat>
    decreases s.len(),
{
    if s.len() == 0 {
        None
    } else if s[0] == '\n' {
        Some(0)
    } else {
        match first_newline(s.drop_first()) {
            Some(i) => Some(i + 1),
            None => None,
        }
    }
}

/// A text split at its first line break, each side trimmed; without a line
/// break, the trimmed text and nothing.
pub open spec fn split_at_newline(s: Seq<char>) -> (Seq<char>, Seq<char>) {
    match first_newline(s) {
        Some(i) => (trim(s.take(i as int)), trim(s.skip((i + 1) as int))),
        None => (trim(s), Seq::empty()),
    }
}

/// The title and description of a media post: the first line of the
/// trimmed caption and the rest, the title falling back to the file name
/// and then to "Untitled".
pub open spec fn caption_title(caption: Seq<char>, file_name: Seq<char>) -> (Seq<char>, Seq<char>) {
    let (title, rest) = split_at_newline(trim(caption));
    let title = if title.len() == 0 {
        if file_name.len() == 0 {
            "Untitled"@
        } else {
            file_name
        }
    } else {
        title
    };
    (title, rest)
}

pub(crate) proof fn lemma_first_newline(s: Seq<char>, i: int)
    requires
        0 <= i <= s.len(),
        forall|j: int| 0 <= j < i ==> #[trigger] s[j] != '\n',
        i < s.len() ==> s[i] == '\n',
    ensures
        first_newline(s) == if i < s.len() {
            Some(i as nat)
        } else {
            None::<nat>
        },
    decreases s.len(),
{
    if s.len() > 0 && i > 0 {
        let t = s.drop_first();
        assert forall|j: int| 0 <= j < i - 1 implies #[trigger] t[j] != '\n' by {
            assert(t[j] == s[j + 1]);
        }
        if i < s.len() {
            assert(t[i - 1] == s[i]);
        }
        lemma_first_newline(t, i - 1);
    }
}

/// The trimmed part of `v[from..to]`.
fn trimmed_range(v: &Vec<char>, from: usize, to: usize) -> (r: Vec<char>)
    requires
        from <= to <= v@.len(),
    ensures
        r@ == trim(v@.subrange(from as int, to as int)),
{
    let mut part: Vec<char> = Vec::new();
    let mut i: usize = from;
    while i < to
        invariant
            from <= i <= to <= v@.len(),
            part@ == v@.subrange(from as int, i as int),
        decreases to - i,
    {
        part.push(v[i]);
        i = i + 1;
        assert(part@ =~= v@.subrange(from as int, i as int));
    }
    let (a, b) = trim_bounds(&part);
    let mut r: Vec<char> = Vec::new();
    let mut k: usize = a;
    while k < b
        invariant
            a <= k <= b <= part@.len(),
            r@ == part@.subrange(a as int, k as int),
        decreases b - k,
    {
        r.push(part[k]);
        k = k + 1;
        assert(r@ =~= part@.subrange(a as int, k as int));
    }
    r
}

/// The title and the rest of a text split at its first line break.
pub(crate) fn split_lines(text: &Vec<char>) -> (r: (Vec<char>, Vec<char>))
    ensures
        (r.0@, r.1@) == split_at_newline(text@),
{
    let n = text.len();
    let mut i: usize = 0;
    while i < n && text[i] != '\n'
        invariant
            n == text@.len(),
            i <= n,
            forall|j: int| 0 <= j < i ==> #[trigger] text@[j] != '\n',
        decreases n - i,
    {
        i = i + 1;
    }
    proof {
        lemma_first_newline(text@, i as int);
    }
    if i < n {
        let title = trimmed_range(text, 0, i);
        let rest = trimmed_range(text, i + 1, n);
        assert(text@.subrange(0, i as int) =~= text@.take(i as int));
        assert(text@.subrange(i + 1, n as int) =~= text@.skip(i + 1));
        (title, rest)
    } else {
        let all = trimmed_range(text, 0, n);
        assert(text@.subrange(0, n as int) =~= text@);
        (all, Vec::new())
    }
}

/// Title = first line of the caption, else the file name, else "Untitled".
pub fn split_title(caption: &str, file_name: &str) -> (r: (String, String))
    ensures
        (r.0@, r.1@) == caption_title(caption@, file_name@),
{
    let chars = chars_of(caption);
    let (a, b) = trim_bounds(&chars);
    let mut trimmed: Vec<char> = Vec::new();
    let mut k: usize = a;
    while k < b
        invariant
            a <= k <= b <= chars@.len(),
            trimmed@ == chars@.subrange(a as int, k as int),
        decreases b - k,
    {
        trimmed.push(chars[k]);
        k = k + 1;
        assert(trimmed@ =~= chars@.subrange(a as int, k as int));
    }
    let (title, rest) = split_lines(&trimmed);
    let title = if title.len() == 0 {
        if file_name.unicode_len() == 0 {
            String::from_str("Untitled")
        } else {
            String::from_str(file_name)
        }
    } else {
        string_of(title.as_slice())
    };
    (title, string_of(rest.as_slice()))
}

/// One media post in the catalog; object ids are carried as text.
#[derive(Debug, Clone, PartialEq, Eq)]
pub struct Entry {
    pub post: String,
    pub media: String,
    pub title: String,
    pub description: String,
    pub file_name: String,
    pub content_type: String,
    pub kind: Kind,
    pub bytes: u64,
    pub author_name: String,
    pub author_did: String,
    pub author_avatar: Option<String>,
    pub timestamp_ms: u64,
    pub likes: usize,
    pub comments: usize,
    pub complete: bool,
    pub own: bool,
}

/// A search word fits an entry: it occurs in the lower-cased title,
/// description, file name, author name, author DID or content type, or it
/// is the lower-cased label of the entry's kind.
pub open spec fn word_found(e: Entry, w: Seq<char>) -> bool {
    ||| contains_text(unicode_lower(e.title@), w)
    ||| contains_text(unicode_lower(e.description@), w)
    ||| contains_text(unicode_lower(e.file_name@), w)
    ||| contains_text(unicode_lower(e.author_name@), w)
    ||| contains_text(unicode_lower(e.author_did@), w)
    ||| contains_text(unicode_lower(e.content_type@), w)
    ||| unicode_lower(kind_label(e.kind)) == w
}

/// An entry fits a query: the query, trimmed and lower-cased, is blank, or
/// every word of it fits the entry.
pub open spec fn entry_matches(e: Entry, query: Seq<char>) -> bool {
    let q = unicode_lower(trim(query));
    q.len() == 0 || forall|a: int, b: int| is_word(q, a, b) ==> word_found(e, #[trigger] q.subrange(a, b))
}

/// The lower-cased characters of a string.
fn lower_chars(s: &str) -> (v: Vec<char>)
    ensures
        v@ == unicode_lower(s@),
{
    let l = to_lowercase(s);
    chars_of(l.as_str())
}

impl Entry {
    /// Case-insensitive match over the fields a person would search by:
    /// every word of the query must occur in one of them.
    pub fn matches(&self, query: &str) -> (b: bool)
        ensures
            b == entry_matches(*self, query@),
    {
        let qchars = chars_of(query);
        let (qa, qb) = trim_bounds(&qchars);
        let trimmed = string_of(sub_chars(&qchars, qa, qb).as_slice());
        let q = lower_chars(trimmed.as_str());
        let n = q.len();
        if n == 0 {
            return true;
        }
        let title = lower_chars(self.title.as_str());
        let description = lower_chars(self.description.as_str());
        let file_name = lower_chars(self.file_name.as_str());
        let author_name = lower_chars(self.author_name.as_str());
        let author_did = lower_chars(self.author_did.as_str());
        let content_type = lower_chars(self.content_type.as_str());
        let label = lower_chars(self.kind.label());
        let ghost qs = q@;
        let mut i: usize = 0;
        while i < n
            invariant
                n == qs.len(),
                qs == q@,
                qs == unicode_lower(trim(query@)),
                i <= n,
                i == 0 || i == n || is_space(qs[i as int]),
                title@ == unicode_lower(self.title@),
                description@ == unicode_lower(self.description@),
                file_name@ == unicode_lower(self.file_name@),
                author_name@ == unicode_lower(self.author_name@),
                author_did@ == unicode_lower(self.author_did@),
                content_type@ == unicode_lower(self.content_type@),
                label@ == unicode_lower(kind_label(self.kind)),
                forall|a: int, b: int|
                    is_word(qs, a, b) && a < i ==> word_found(*self, #[trigger] qs.subrange(a, b)),
            decreases n - i,
        {
            let mut s = i;
            while s < n && is_whitespace(q[s])
                invariant
                    i <= s <= n,
                    n == qs.len(),
                    qs == q@,
                    forall|k: int| i <= k < s ==> is_space(#[trigger] qs[k]),
                decreases n - s,
            {
                s = s + 1;
            }
            if s == n {
                proof {
                    assert forall|a: int, b: int| is_word(qs, a, b) implies word_found(
                        *self,
                        #[trigger] qs.subrange(a, b),
                    ) by {
                        if a >= i {
                            assert(is_space(qs[a]));
                        }
                    }
                }
                return true;
            }
            let mut e = s;
            while e < n && !is_whitespace(q[e])
                invariant
                    s <= e <= n,
                    n == qs.len(),
                    qs == q@,
                    forall|k: int| s <= k < e ==> !is_space(#[trigger] qs[k]),
                decreases n - e,
            {
                e = e + 1;
            }
            let word = sub_chars(&q, s, e);
            proof {
                assert(!is_space(qs[s as int]));
                if s > 0 {
                    if s == i {
                        assert(i == 0);
                    } else {
                        assert(is_space(qs[s - 1]));
                    }
                }
                assert(is_word(qs, s as int, e as int));
            }
            let found = find_text(&title, &word) || find_text(&description, &word) || find_text(
                &file_name,
                &word,
            ) || find_text(&author_name, &word) || find_text(&author_did, &word) || find_text(
                &content_type,
                &word,
            ) || equals(&label, word.as_slice());
            if !found {
                assert(!word_found(*self, qs.subrange(s as int, e as int)));
                return false;
            }
            proof {
                assert forall|a: int, b: int| is_word(qs, a, b) && a < e implies word_found(
                    *self,
                    #[trigger] qs.subrange(a, b),
                ) by {
                    if a >= i && a < s {
                        assert(is_space(qs[a]));
                    } else if a > s && a < e {
                        assert(!is_space(qs[a - 1]));
                    } else if a == s {
                        if b < e {
                            assert(!is_space(qs[b]));
                        } else if b > e {
                            assert(is_space(qs[e as int]));
                        }
                        assert(b == e);
                    }
                }
            }
            i = e;
        }
        proof {
            assert forall|a: int, b: int| is_word(qs, a, b) implies word_found(
                *self,
                #[trigger] qs.subrange(a, b),
            ) by {}
        }
        true
    }
}

/// What an order compares first: likes or comments, or nothing for
/// newest-first.
pub open spec fn primary_rank(e: Entry, order: Sort) -> int {
    match order {
        Sort::Newest => 0,
        Sort::MostLiked => e.likes as int,
        Sort::MostDiscussed => e.comments as int,
    }
}

/// `a` comes strictly before `b` in this order: more likes or comments
/// first, and newer first among equals.
pub open spec fn ranks_above(a: Entry, b: Entry, order: Sort) -> bool {
    primary_rank(a, order) > primary_rank(b, order) || (primary_rank(a, order) == primary_rank(
        b,
        order,
    ) && a.timestamp_ms > b.timestamp_ms)
}

/// `a` and `b` rank alike in this order.
pub open spec fn same_rank(a: Entry, b: Entry, order: Sort) -> bool {
    primary_rank(a, order) == primary_rank(b, order) && a.timestamp_ms == b.timestamp_ms
}

/// `out` is `entries` stably sorted: `perm` says where each entry came
/// from, no entry ranks above one before it, and entries that rank alike
/// keep their order.
pub open spec fn stably_sorted(entries: Seq<Entry>, out: Seq<Entry>, perm: Seq<int>, order: Sort) -> bool {
    &&& out.len() == entries.len()
    &&& perm.len() == entries.len()
    &&& forall|k: int| 0 <= k < out.len() ==> 0 <= #[trigger] perm[k] < entries.len() && out[k]
        == entries[perm[k]]
    &&& forall|k1: int, k2: int| 0 <= k1 < k2 < perm.len() ==> #[trigger] perm[k1] != #[trigger] perm[k2]
    &&& forall|k1: int, k2: int|
        0 <= k1 < k2 < out.len() ==> !ranks_above(#[trigger] out[k2], #[trigger] out[k1], order)
    &&& forall|k1: int, k2: int|
        0 <= k1 < k2 < out.len() && same_rank(#[trigger] out[k1], #[trigger] out[k2], order)
            ==> perm[k1] < perm[k2]
}

fn ranks_above_exec(a: &Entry, b: &Entry, order: Sort) -> (r: bool)
    ensures
        r == ranks_above(*a, *b, order),
{
    let (pa, pb): (usize, usize) = match order {
        Sort::Newest => (0, 0),
        Sort::MostLiked => (a.likes, b.likes),
        Sort::MostDiscussed => (a.comments, b.comments),
    };
    pa > pb || (pa == pb && a.timestamp_ms > b.timestamp_ms)
}

/// Sort entries for display: newest first, or most liked or most discussed
/// first with newer first among equals. The sort is stable.
pub fn sort(entries: &mut Vec<Entry>, order: Sort)
    ensures
        exists|perm: Seq<int>| stably_sorted(old(entries)@, final(entries)@, perm, order),
{
    let ghost orig = entries@;
    let mut src: Vec<Entry> = Vec::new();
    std::mem::swap(&mut src, entries);
    let mut out: Vec<Entry> = Vec::new();
    let ghost mut perm: Seq<int> = Seq::empty();
    while src.len() > 0
        invariant
            orig == old(entries)@,
            src@ == orig.take(src@.len() as int),
            out@.len() + src@.len() == orig.len(),
            perm.len() == out@.len(),
            forall|k: int|
                0 <= k < out@.len() ==> src@.len() <= #[trigger] perm[k] < orig.len()
                    && out@[k] == orig[perm[k]],
            forall|k1: int, k2: int| 0 <= k1 < k2 < perm.len() ==> #[trigger] perm[k1] != #[trigger] perm[k2],
            forall|k1: int, k2: int|
                0 <= k1 < k2 < out@.len() ==> !ranks_above(
                    #[trigger] out@[k2],
                    #[trigger] out@[k1],
                    order,
                ),
            forall|k1: int, k2: int|
                0 <= k1 < k2 < out@.len() && same_rank(#[trigger] out@[k1], #[trigger] out@[k2], order)
                    ==> perm[k1] < perm[k2],
        decreases src@.len(),
    {
        let ghost before_src = src@;
        let x = match src.pop() {
            Some(v) => v,
            None => {
                return;
            },
        };
        let ghost idx = src@.len() as int;
        assert(x == orig[idx]);
        let mut p: usize = 0;
        while p < out.len() && ranks_above_exec(&out[p], &x, order)
            invariant
                p <= out@.len(),
                forall|k: int| 0 <= k < p ==> ranks_above(#[trigger] out@[k], x, order),
            decreases out@.len() - p,
        {
            p = p + 1;
        }
        let ghost before = out@;
        let ghost old_perm = perm;
        out.insert(p, x);
        proof {
            perm = perm.insert(p as int, idx);
            assert(src@ =~= orig.take(src@.len() as int));
            assert forall|k: int| 0 <= k < out@.len() implies src@.len() <= #[trigger] perm[k]
                < orig.len() && out@[k] == orig[perm[k]] by {
                if k < p {
                    assert(out@[k] == before[k] && perm[k] == old_perm[k]);
                } else if k > p {
                    assert(out@[k] == before[k - 1] && perm[k] == old_perm[k - 1]);
                }
            }
            assert forall|k1: int, k2: int| 0 <= k1 < k2 < perm.len() implies #[trigger] perm[k1]
                != #[trigger] perm[k2] by {
                let a = if k1 < p { k1 } else { k1 - 1 };
                let b = if k2 < p { k2 } else { k2 - 1 };
                if k1 != p && k2 != p {
                    assert(perm[k1] == old_perm[a] && perm[k2] == old_perm[b]);
                } else if k1 == p {
                    assert(perm[k2] == old_perm[b]);
                } else {
                    assert(perm[k1] == old_perm[a]);
                }
            }
            assert forall|k1: int, k2: int| 0 <= k1 < k2 < out@.len() implies !ranks_above(
                #[trigger] out@[k2],
                #[trigger] out@[k1],
                order,
            ) by {
                let a = if k1 < p { k1 } else { k1 - 1 };
                let b = if k2 < p { k2 } else { k2 - 1 };
                if k1 != p && k2 != p {
                    assert(out@[k1] == before[a] && out@[k2] == before[b]);
                } else if k1 == p {
                    assert(out@[k2] == before[b]);
                    if b == p {
                        if p < before.len() {
                            assert(!ranks_above(before[p as int], x, order));
                        }
                    } else {
                        assert(!ranks_above(before[p as int], x, order));
                        assert(!ranks_above(before[b], before[p as int], order));
                    }
                } else {
                    assert(out@[k1] == before[a]);
                    assert(ranks_above(before[a], x, order));
                }
            }
            assert forall|k1: int, k2: int|
                0 <= k1 < k2 < out@.len() && same_rank(#[trigger] out@[k1], #[trigger] out@[k2], order)
                implies perm[k1] < perm[k2] by {
                let a = if k1 < p { k1 } else { k1 - 1 };
                let b = if k2 < p { k2 } else { k2 - 1 };
                if k1 != p && k2 != p {
                    assert(out@[k1] == before[a] && out@[k2] == before[b]);
                    assert(perm[k1] == old_perm[a] && perm[k2] == old_perm[b]);
                } else if k1 == p {
                    assert(perm[k2] == old_perm[b]);
                } else {
                    assert(out@[k1] == before[a]);
                    assert(ranks_above(before[a], x, order));
                }
            }
        }
    }
    *entries = out;
    assert(stably_sorted(orig, entries@, perm, order));
}

/// What orders a post in the catalog: its id and its time.
pub open spec fn post_key(p: (String, u64)) -> (Seq<char>, u64) {
    (p.0@, p.1)
}

/// Post `a` is listed before post `b`: newer first, and among posts of
/// the same time the greater id first.
pub open spec fn listed_before(a: (Seq<char>, u64), b: (Seq<char>, u64)) -> bool {
    a.1 > b.1 || (a.1 == b.1 && str_lt(b.0, a.0))
}

proof fn lemma_listed_before_asym(a: (Seq<char>, u64), b: (Seq<char>, u64))
    ensures
        !(listed_before(a, b) && listed_before(b, a)),
{
    lemma_str_total(a.0, b.0);
}

proof fn lemma_listed_before_neg_trans(a: (Seq<char>, u64), b: (Seq<char>, u64), c: (Seq<char>, u64))
    requires
        !listed_before(a, b),
        !listed_before(b, c),
    ensures
        !listed_before(a, c),
{
    lemma_str_total(a.0, b.0);
    lemma_str_total(b.0, c.0);
    lemma_str_total(a.0, c.0);
    if a.1 == b.1 && b.1 == c.1 && str_lt(c.0, a.0) && b.0 != c.0 && b.0 != a.0 {
        lemma_str_trans(a.0, b.0, c.0);
    }
}

fn listed_before_exec(a: &(String, u64), b: &(String, u64)) -> (r: bool)
    ensures
        r == listed_before(post_key(*a), post_key(*b)),
{
    a.1 > b.1 || (a.1 == b.1 && match compare_strings(&b.0, &a.0) {
        Cmp::Less => true,
        _ => false,
    })
}

/// `out` holds the posts of `posts`, each once: `perm` says where each came
/// from.
pub open spec fn rearranges(posts: Seq<(String, u64)>, out: Seq<(String, u64)>, perm: Seq<int>) -> bool {
    &&& out.len() == posts.len()
    &&& perm.len() == posts.len()
    &&& forall|k: int| 0 <= k < out.len() ==> 0 <= #[trigger] perm[k] < posts.len() && out[k] == posts[perm[k]]
    &&& forall|k1: int, k2: int| 0 <= k1 < k2 < perm.len() ==> #[trigger] perm[k1] != #[trigger] perm[k2]
}

/// The posts a catalog lists, in the order it lists them: newest first,
/// and among posts of the same time the greater id first. The result
/// holds the same posts, each once (`perm` says where each came from).
pub fn newest_first(posts: Vec<(String, u64)>) -> (out: Vec<(String, u64)>)
    ensures
        out@.len() == posts@.len(),
        exists|perm: Seq<int>| #[trigger] rearranges(posts@, out@, perm),
        forall|k1: int, k2: int|
            0 <= k1 < k2 < out@.len() ==> !listed_before(
                post_key(#[trigger] out@[k2]),
                post_key(#[trigger] out@[k1]),
            ),
{
    let ghost orig = posts@;
    let mut src = posts;
    let mut out: Vec<(String, u64)> = Vec::new();
    let ghost mut perm: Seq<int> = Seq::empty();
    while src.len() > 0
        invariant
            src@ == orig.take(src@.len() as int),
            out@.len() + src@.len() == orig.len(),
            perm.len() == out@.len(),
            forall|k: int|
                0 <= k < out@.len() ==> src@.len() <= #[trigger] perm[k] < orig.len()
                    && out@[k] == orig[perm[k]],
            forall|k1: int, k2: int| 0 <= k1 < k2 < perm.len() ==> #[trigger] perm[k1] != #[trigger] perm[k2],
            forall|k1: int, k2: int|
                0 <= k1 < k2 < out@.len() ==> !listed_before(
                    post_key(#[trigger] out@[k2]),
                    post_key(#[trigger] out@[k1]),
                ),
        decreases src@.len(),
    {
        let x = match src.pop() {
            Some(v) => v,
            None => {
                return out;
            },
        };
        let ghost idx = src@.len() as int;
        assert(x == orig[idx]);
        let mut p: usize = 0;
        while p < out.len() && listed_before_exec(&out[p], &x)
            invariant
                p <= out@.len(),
                forall|k: int| 0 <= k < p ==> listed_before(post_key(#[trigger] out@[k]), post_key(x)),
            decreases out@.len() - p,
        {
            p = p + 1;
        }
        let ghost before = out@;
        let ghost old_perm = perm;
        out.insert(p, x);
        proof {
            perm = perm.insert(p as int, idx);
            assert(src@ =~= orig.take(src@.len() as int));
            assert forall|k: int| 0 <= k < out@.len() implies src@.len() <= #[trigger] perm[k]
                < orig.len() && out@[k] == orig[perm[k]] by {
                if k < p {
                    assert(out@[k] == before[k] && perm[k] == old_perm[k]);
                } else if k > p {
                    assert(out@[k] == before[k - 1] && perm[k] == old_perm[k - 1]);
                }
            }
            assert forall|k1: int, k2: int| 0 <= k1 < k2 < perm.len() implies #[trigger] perm[k1]
                != #[trigger] perm[k2] by {
                let a = if k1 < p { k1 } else { k1 - 1 };
                let b = if k2 < p { k2 } else { k2 - 1 };
                if k1 != p && k2 != p {
                    assert(perm[k1] == old_perm[a] && perm[k2] == old_perm[b]);
                } else if k1 == p {
                    assert(perm[k2] == old_perm[b]);
                } else {
                    assert(perm[k1] == old_perm[a]);
                }
            }
            assert forall|k1: int, k2: int| 0 <= k1 < k2 < out@.len() implies !listed_before(
                post_key(#[trigger] out@[k2]),
                post_key(#[trigger] out@[k1]),
            ) by {
                let a = if k1 < p { k1 } else { k1 - 1 };
                let b = if k2 < p { k2 } else { k2 - 1 };
                if k1 != p && k2 != p {
                    assert(out@[k1] == before[a] && out@[k2] == before[b]);
                } else if k1 == p {
                    assert(out@[k2] == before[b]);
                    if b == p {
                        if p < before.len() {
                            assert(!listed_before(post_key(before[p as int]), post_key(x)));
                        }
                    } else {
                        assert(!listed_before(post_key(before[p as int]), post_key(x)));
                        assert(!listed_before(post_key(before[b]), post_key(before[p as int])));
                        lemma_listed_before_neg_trans(
                            post_key(before[b]),
                            post_key(before[p as int]),
                            post_key(x),
                        );
                    }
                } else {
                    assert(out@[k1] == before[a]);
                    assert(listed_before(post_key(before[a]), post_key(x)));
                    lemma_listed_before_asym(post_key(before[a]), post_key(x));
                }
            }
        }
    }
    assert(rearranges(orig, out@, perm));
    out
}

} // verus!
