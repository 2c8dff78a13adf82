//! Discussion threads: their sort orders, and how a post's text becomes a
//! title and a body.
use crate::catalog::{first_newline, split_at_newline};
use crate::lexorder::{compare_strings, lemma_str_total, lemma_str_trans, str_lt, Cmp};
use crate::text::{chars_of, trim, trim_bounds};
use vstd::prelude::*;
use vstd::string::StrSliceExecFns;

verus! {

#[derive(Debug, Clone, Copy, PartialEq, Eq, Structural)]
pub enum Order {
    Top,
    New,
}

/// The trimmed part of `text[from..to]`, as a slice of `text`.
fn trimmed_slice<'a>(text: &'a str, chars: &Vec<char>, from: usize, to: usize) -> (r: &'a str)
    requires
        chars@ == text@,
        from <= to <= chars@.len(),
    ensures
        r@ == trim(text@.subrange(from as int, to as int)),
{
    let mut part: Vec<char> = Vec::new();
    let mut i: usize = from;
    while i < to
        invariant
            from <= i <= to <= chars@.len(),
            part@ == chars@.subrange(from as int, i as int),
        decreases to - i,
    {
        part.push(chars[i]);
        i = i + 1;
        assert(part@ =~= chars@.subrange(from as int, i as int));
    }
    let (a, b) = trim_bounds(&part);
    let r = text.substring_char(from + a, from + b);
    assert(r@ =~= part@.subrange(a as int, b as int));
    r
}

/// A post's title and body: split at the first line break, each trimmed;
/// without a line break, the trimmed text and an empty body.
pub fn split_title(text: &str) -> (r: (&str, &str))
    ensures
        (r.0@, r.1@) == split_at_newline(text@),
{
    let chars = chars_of(text);
    let n = chars.len();
    let mut i: usize = 0;
    while i < n && chars[i] != '\n'
        invariant
            n == chars@.len(),
            i <= n,
            forall|j: int| 0 <= j < i ==> #[trigger] chars@[j] != '\n',
        decreases n - i,
    {
        i = i + 1;
    }
    proof {
        crate::catalog::lemma_first_newline(text@, i as int);
    }
    if i < n {
        let title = trimmed_slice(text, &chars, 0, i);
        let body = trimmed_slice(text, &chars, i + 1, n);
        assert(text@.subrange(0, i as int) =~= text@.take(i as int));
        assert(text@.subrange(i + 1, n as int) =~= text@.skip(i + 1));
        (title, body)
    } else {
        let all = trimmed_slice(text, &chars, 0, n);
        let empty = text.substring_char(n, n);
        assert(text@.subrange(0, n as int) =~= text@);
        assert(empty@ =~= Seq::<char>::empty());
        (all, empty)
    }
}

/// Threads shown per community.
pub const MAX_THREADS: usize = 100;

/// Replies shown per node.
pub const MAX_REPLIES: usize = 200;

/// One post of a discussion with the replies walked beneath it; the object
/// id is carried as text.
#[derive(Debug, PartialEq, Eq)]
pub struct Node {
    pub id: String,
    pub author: String,
    pub did: String,
    pub text: String,
    pub timestamp_ms: u64,
    pub upvotes: usize,
    pub own: bool,
    pub replies: Vec<Node>,
    /// Direct replies that exist below the depth limit and were not walked
    /// (their own descendants are not counted).
    pub truncated: usize,
}

/// The replies beneath a node: each walked reply with the replies beneath
/// it, and the direct replies that were not walked.
pub open spec fn reply_count(n: Node) -> nat
    decreases n, 1nat,
{
    replies_total(n.replies@) + n.truncated as nat
}

/// Each of these replies with the replies beneath it, summed.
pub open spec fn replies_total(rs: Seq<Node>) -> nat
    decreases rs, 0nat,
{
    if rs.len() == 0 {
        0
    } else {
        replies_total(rs.drop_last()) + 1 + reply_count(rs.last())
    }
}

proof fn lemma_replies_prefix(rs: Seq<Node>, i: int)
    requires
        0 <= i < rs.len(),
    ensures
        replies_total(rs.take(i + 1)) == replies_total(rs.take(i)) + 1 + reply_count(rs[i]),
        replies_total(rs.take(i + 1)) <= replies_total(rs),
    decreases rs.len(),
{
    assert(rs.take(i + 1).drop_last() =~= rs.take(i));
    if i + 1 < rs.len() {
        assert(rs.drop_last().take(i + 1) =~= rs.take(i + 1));
        assert(rs.drop_last().take(i) =~= rs.take(i));
        lemma_replies_prefix(rs.drop_last(), i);
    } else {
        assert(rs.take(i + 1) =~= rs);
    }
}

/// `a` is listed before `b`: with `Top`, more upvotes first, then newer;
/// with `New`, newer first; in both, the larger id first among equals.
pub open spec fn thread_before(a: Node, b: Node, order: Order) -> bool {
    let later_id = str_lt(b.id@, a.id@);
    match order {
        Order::Top => a.upvotes > b.upvotes || (a.upvotes == b.upvotes && (a.timestamp_ms
            > b.timestamp_ms || (a.timestamp_ms == b.timestamp_ms && later_id))),
        Order::New => a.timestamp_ms > b.timestamp_ms || (a.timestamp_ms == b.timestamp_ms
            && later_id),
    }
}

/// Neither of `a` and `b` is listed before the other.
pub open spec fn same_place(a: Node, b: Node, order: Order) -> bool {
    !thread_before(a, b, order) && !thread_before(b, a, order)
}

/// `out` is `threads` in display order: `perm` says where each thread
/// came from, none is listed before one ahead of it, and threads that
/// tie keep their order.
pub open spec fn threads_ordered(threads: Seq<Node>, out: Seq<Node>, perm: Seq<int>, order: Order) -> bool {
    &&& out.len() == threads.len()
    &&& perm.len() == threads.len()
    &&& forall|k: int| 0 <= k < out.len() ==> 0 <= #[trigger] perm[k] < threads.len() && out[k]
        == threads[perm[k]]
    &&& forall|k1: int, k2: int| 0 <= k1 < k2 < perm.len() ==> #[trigger] perm[k1] != #[trigger] perm[k2]
    &&& forall|k1: int, k2: int|
        0 <= k1 < k2 < out.len() ==> !thread_before(#[trigger] out[k2], #[trigger] out[k1], order)
    &&& forall|k1: int, k2: int|
        0 <= k1 < k2 < out.len() && same_place(#[trigger] out[k1], #[trigger] out[k2], order)
            ==> perm[k1] < perm[k2]
}

/// If `y` goes before `w`, then any `z` goes after `y` or before `w`.
proof fn lemma_before_split(y: Node, z: Node, w: Node, order: Order)
    requires
        thread_before(y, w, order),
    ensures
        thread_before(y, z, order) || thread_before(z, w, order),
{
    lemma_str_total(z.id@, y.id@);
    lemma_str_total(w.id@, z.id@);
    if str_lt(y.id@, z.id@) && str_lt(w.id@, y.id@) {
        lemma_str_trans(w.id@, y.id@, z.id@);
    }
}

fn thread_before_exec(a: &Node, b: &Node, order: Order) -> (r: bool)
    ensures
        r == thread_before(*a, *b, order),
{
    let later_id = match compare_strings(&b.id, &a.id) {
        Cmp::Less => true,
        _ => false,
    };
    match order {
        Order::Top => a.upvotes > b.upvotes || (a.upvotes == b.upvotes && (a.timestamp_ms
            > b.timestamp_ms || (a.timestamp_ms == b.timestamp_ms && later_id))),
        Order::New => a.timestamp_ms > b.timestamp_ms || (a.timestamp_ms == b.timestamp_ms
            && later_id),
    }
}

/// Put a community's threads in display order: by upvotes then time
/// (`Top`), or by time (`New`), newest first, the larger id first among
/// equals. The sort is stable.
#[verifier::spinoff_prover]
pub fn sort_threads(threads: &mut Vec<Node>, order: Order)
    ensures
        exists|perm: Seq<int>| threads_ordered(old(threads)@, final(threads)@, perm, order),
{
    let ghost orig = threads@;
    let mut src: Vec<Node> = Vec::new();
    std::mem::swap(&mut src, threads);
    let mut out: Vec<Node> = Vec::new();
    let ghost mut perm: Seq<int> = Seq::empty();
    while src.len() > 0
        invariant
            orig == old(threads)@,
            src@ == orig.take(src@.len() as int),
            out@.len() + src@.len() == orig.len(),
            perm.len() == out@.len(),
            forall|k: int|
                0 <= k < out@.len() ==> src@.len() <= #[trigger] perm[k] < orig.len()
                    && out@[k] == orig[perm[k]],
            forall|k1: int, k2: int| 0 <= k1 < k2 < perm.len() ==> #[trigger] perm[k1] != #[trigger] perm[k2],
            forall|k1: int, k2: int|
                0 <= k1 < k2 < out@.len() ==> !thread_before(
                    #[trigger] out@[k2],
                    #[trigger] out@[k1],
                    order,
                ),
            forall|k1: int, k2: int|
                0 <= k1 < k2 < out@.len() && same_place(#[trigger] out@[k1], #[trigger] out@[k2], order)
                    ==> perm[k1] < perm[k2],
        decreases src@.len(),
    {
        let x = match src.pop() {
            Some(v) => v,
            None => {
                return;
            },
        };
        let ghost idx = src@.len() as int;
        assert(x == orig[idx]);
        let mut p: usize = 0;
        while p < out.len() && thread_before_exec(&out[p], &x, order)
            invariant
                p <= out@.len(),
                forall|k: int| 0 <= k < p ==> thread_before(#[trigger] out@[k], x, order),
            decreases out@.len() - p,
        {
            p = p + 1;
        }
        let ghost before = out@;
        let ghost old_perm = perm;
        out.insert(p, x);
        proof {
            perm = perm.insert(p as int, idx);
            assert(src@ =~= orig.take(src@.len() as int));
            assert forall|k: int| 0 <= k < out@.len() implies src@.len() <= #[trigger] perm[k]
                < orig.len() && out@[k] == orig[perm[k]] by {
                if k < p {
                    assert(out@[k] == before[k] && perm[k] == old_perm[k]);
                } else if k > p {
                    assert(out@[k] == before[k - 1] && perm[k] == old_perm[k - 1]);
                }
            }
            assert forall|k1: int, k2: int| 0 <= k1 < k2 < perm.len() implies #[trigger] perm[k1]
                != #[trigger] perm[k2] by {
                let a = if k1 < p {
                    k1
                } else {
                    k1 - 1
                };
                let b = if k2 < p {
                    k2
                } else {
                    k2 - 1
                };
                if k1 != p && k2 != p {
                    assert(perm[k1] == old_perm[a] && perm[k2] == old_perm[b]);
                } else if k1 == p {
                    assert(perm[k2] == old_perm[b]);
                } else {
                    assert(perm[k1] == old_perm[a]);
                }
            }
            assert forall|k1: int, k2: int| 0 <= k1 < k2 < out@.len() implies !thread_before(
                #[trigger] out@[k2],
                #[trigger] out@[k1],
                order,
            ) by {
                let a = if k1 < p {
                    k1
                } else {
                    k1 - 1
                };
                let b = if k2 < p {
                    k2
                } else {
                    k2 - 1
                };
                if k1 != p && k2 != p {
                    assert(out@[k1] == before[a] && out@[k2] == before[b]);
                } else if k1 == p {
                    assert(out@[k2] == before[b]);
                    if b == p {
                        if p < before.len() {
                            assert(!thread_before(before[p as int], x, order));
                        }
                    } else {
                        assert(!thread_before(before[p as int], x, order));
                        assert(!thread_before(before[b], before[p as int], order));
                        if thread_before(before[b], x, order) {
                            lemma_before_split(before[b], before[p as int], x, order);
                        }
                    }
                } else {
                    assert(out@[k1] == before[a]);
                    assert(thread_before(before[a], x, order));
                    lemma_str_total(x.id@, before[a].id@);
                }
            }
            assert forall|k1: int, k2: int|
                0 <= k1 < k2 < out@.len() && same_place(#[trigger] out@[k1], #[trigger] out@[k2], order)
                implies perm[k1] < perm[k2] by {
                let a = if k1 < p {
                    k1
                } else {
                    k1 - 1
                };
                let b = if k2 < p {
                    k2
                } else {
                    k2 - 1
                };
                if k1 != p && k2 != p {
                    assert(out@[k1] == before[a] && out@[k2] == before[b]);
                    assert(perm[k1] == old_perm[a] && perm[k2] == old_perm[b]);
                } else if k1 == p {
                    assert(perm[k2] == old_perm[b]);
                } else {
                    assert(out@[k1] == before[a]);
                    assert(thread_before(before[a], x, order));
                }
            }
        }
    }
    *threads = out;
    assert(threads_ordered(orig, threads@, perm, order));
}

impl Node {
    /// Every reply beneath this node, walked or not.
    pub fn total_replies(&self) -> (t: usize)
        requires
            reply_count(*self) <= usize::MAX,
        ensures
            t == reply_count(*self),
        decreases self,
    {
        let mut sum: usize = 0;
        let mut i: usize = 0;
        assert(self.replies@.take(0) =~= Seq::<Node>::empty());
        while i < self.replies.len()
            invariant
                i <= self.replies@.len(),
                reply_count(*self) <= usize::MAX,
                reply_count(*self) == replies_total(self.replies@) + self.truncated,
                sum == replies_total(self.replies@.take(i as int)),
            decreases self.replies@.len() - i,
        {
            proof {
                lemma_replies_prefix(self.replies@, i as int);
            }
            let r = self.replies[i].total_replies();
            sum = sum + 1 + r;
            i = i + 1;
        }
        assert(self.replies@.take(i as int) =~= self.replies@);
        sum + self.truncated
    }
}

} // verus!
