//! Experimental Human Share credit limits and repayment accounting.
//!
//! A permit authorizes a finite total of offline IOUs, not a guarantee or a
//! mint. Every still-live allowance and every unpaid debt counts against
//! the same human's cap, across devices and permit renewals. Recipients
//! hold a receivable until released Human Share actually repays it.
//!
//! Signatures, issuer authority and subject binding are checked before a
//! permit or IOU reaches this book: it receives their verified terms.
use crate::amount::Amount;
use crate::issuance::{is_blank_root, root_is_blank};
use vstd::prelude::*;
use vstd::string::StringExecFns;

verus! {

pub type CreditSubject = [u8; 32];

pub type PermitId = [u8; 32];

/// Collectively chosen policy, deliberately without a production default.
#[derive(Debug, Clone, Copy, PartialEq, Eq)]
pub struct CreditPolicy {
    pub network_id: [u8; 32],
    pub revision: [u8; 32],
    pub max_debt_per_human: u64,
    /// Fraction of actually released share available for repayment
    /// (0 < ppm <= 1 000 000).
    pub repayment_ppm: u32,
    pub max_permit_height_span: u64,
    pub max_accounts: usize,
    pub max_permits: usize,
    pub max_ious: usize,
}

#[derive(Debug, Clone, Copy, PartialEq, Eq, Structural)]
pub enum CreditError {
    InvalidPolicy,
    InvalidTerms,
    UnknownAccount,
    UnknownPermit,
    LimitExceeded,
    PermitConflict,
    IouConflict,
    OutsideWindow,
    NotExpired,
    ReplayMismatch,
    InvalidEpoch,
    Arithmetic,
}

/// How a credit error is displayed: the refusal and the variant's name.
pub open spec fn credit_error_text(e: CreditError) -> Seq<char> {
    match e {
        CreditError::InvalidPolicy => "credit accounting refused: InvalidPolicy"@,
        CreditError::InvalidTerms => "credit accounting refused: InvalidTerms"@,
        CreditError::UnknownAccount => "credit accounting refused: UnknownAccount"@,
        CreditError::UnknownPermit => "credit accounting refused: UnknownPermit"@,
        CreditError::LimitExceeded => "credit accounting refused: LimitExceeded"@,
        CreditError::PermitConflict => "credit accounting refused: PermitConflict"@,
        CreditError::IouConflict => "credit accounting refused: IouConflict"@,
        CreditError::OutsideWindow => "credit accounting refused: OutsideWindow"@,
        CreditError::NotExpired => "credit accounting refused: NotExpired"@,
        CreditError::ReplayMismatch => "credit accounting refused: ReplayMismatch"@,
        CreditError::InvalidEpoch => "credit accounting refused: InvalidEpoch"@,
        CreditError::Arithmetic => "credit accounting refused: Arithmetic"@,
    }
}

impl CreditError {
    /// The error as it is displayed.
    pub fn message(&self) -> (m: String)
        ensures
            m@ == credit_error_text(*self),
    {
        match self {
            CreditError::InvalidPolicy => String::from_str("credit accounting refused: InvalidPolicy"),
            CreditError::InvalidTerms => String::from_str("credit accounting refused: InvalidTerms"),
            CreditError::UnknownAccount => String::from_str("credit accounting refused: UnknownAccount"),
            CreditError::UnknownPermit => String::from_str("credit accounting refused: UnknownPermit"),
            CreditError::LimitExceeded => String::from_str("credit accounting refused: LimitExceeded"),
            CreditError::PermitConflict => String::from_str("credit accounting refused: PermitConflict"),
            CreditError::IouConflict => String::from_str("credit accounting refused: IouConflict"),
            CreditError::OutsideWindow => String::from_str("credit accounting refused: OutsideWindow"),
            CreditError::NotExpired => String::from_str("credit accounting refused: NotExpired"),
            CreditError::ReplayMismatch => String::from_str("credit accounting refused: ReplayMismatch"),
            CreditError::InvalidEpoch => String::from_str("credit accounting refused: InvalidEpoch"),
            CreditError::Arithmetic => String::from_str("credit accounting refused: Arithmetic"),
        }
    }
}

/// The signed terms of a credit permit.
#[derive(Debug, Clone, Copy, PartialEq, Eq)]
pub struct CreditPermitTerms {
    pub network_id: [u8; 32],
    pub policy_revision: [u8; 32],
    pub serial: [u8; 32],
    pub borrower_key: [u8; 32],
    pub limit_micro: u64,
    pub issued_height: u64,
    pub valid_through_height: u64,
}

/// A permit whose issuer signature has been verified: its identifier and
/// its terms.
#[derive(Debug, Clone, Copy, PartialEq, Eq)]
pub struct VerifiedCreditPermit {
    pub id: PermitId,
    pub terms: CreditPermitTerms,
}

/// The signed terms of one offline IOU under a permit.
#[derive(Debug, Clone, Copy, PartialEq, Eq)]
pub struct CreditIouTerms {
    pub permit_id: PermitId,
    pub sequence: u64,
    pub payee_commitment: [u8; 32],
    pub amount_micro: u64,
}

/// An IOU whose borrower signature has been verified: its digest and terms.
#[derive(Debug, Clone, Copy, PartialEq, Eq)]
pub struct VerifiedCreditIou {
    pub digest: [u8; 32],
    pub terms: CreditIouTerms,
}

impl VerifiedCreditPermit {
    pub fn id(&self) -> (r: &PermitId)
        ensures
            *r == self.id,
    {
        &self.id
    }

    pub fn terms(&self) -> (r: &CreditPermitTerms)
        ensures
            *r == self.terms,
    {
        &self.terms
    }
}

impl VerifiedCreditIou {
    pub fn digest(&self) -> (r: &[u8; 32])
        ensures
            *r == self.digest,
    {
        &self.digest
    }

    pub fn terms(&self) -> (r: &CreditIouTerms)
        ensures
            *r == self.terms,
    {
        &self.terms
    }
}

/// One private transfer instruction.
#[derive(Clone, Copy, PartialEq, Eq, Debug)]
pub struct CreditRepayment {
    pub iou_digest: [u8; 32],
    pub payee_commitment: [u8; 32],
    pub amount_micro: u64,
}

/// An authorized release split. No new issuance: the gross release is the
/// repayments plus what the recipient keeps.
#[derive(Clone, PartialEq, Eq, Debug)]
pub struct ShareRepayment {
    pub gross_released: Amount,
    pub recipient_available: Amount,
    pub remaining_debt_micro: u64,
    pub repayments: Vec<CreditRepayment>,
}

/// What a release split says, amounts in micro-MINI.
pub struct ShareRepaymentView {
    pub gross_released: u128,
    pub recipient_available: u128,
    pub remaining_debt_micro: u64,
    pub repayments: Seq<CreditRepayment>,
}

impl View for ShareRepayment {
    type V = ShareRepaymentView;

    open spec fn view(&self) -> ShareRepaymentView {
        ShareRepaymentView {
            gross_released: self.gross_released.micro(),
            recipient_available: self.recipient_available.micro(),
            remaining_debt_micro: self.remaining_debt_micro,
            repayments: self.repayments@,
        }
    }
}

/// The repaid amounts, summed.
pub open spec fn repaid_total(reps: Seq<CreditRepayment>) -> nat
    decreases reps.len(),
{
    if reps.len() == 0 {
        0
    } else {
        reps[0].amount_micro as nat + repaid_total(reps.drop_first())
    }
}

/// No new issuance: the gross release is exactly the repayments plus what
/// the recipient keeps.
pub open spec fn split_balanced(s: ShareRepaymentView) -> bool {
    repaid_total(s.repayments) + s.recipient_available == s.gross_released
}

/// One human's credit position.
#[derive(Debug, Clone, PartialEq, Eq)]
pub struct Position {
    pub cap: u64,
    pub debt: u64,
    pub unused_authorized: u64,
    pub repayment_remainder: u128,
    pub last_share: Option<(u64, ShareRepayment)>,
}

/// A registered permit.
#[derive(Debug, Clone, Copy, PartialEq, Eq)]
pub struct Permit {
    pub subject: CreditSubject,
    pub verified: VerifiedCreditPermit,
    pub used: u64,
    pub expired: bool,
}

/// A recorded IOU, kept in canonical arrival order.
#[derive(Debug, Clone, Copy, PartialEq, Eq)]
pub struct Iou {
    pub permit_id: PermitId,
    pub sequence: u64,
    pub subject: CreditSubject,
    pub digest: [u8; 32],
    pub payee: [u8; 32],
    pub remaining: u64,
}

/// Finite credit state with no pruning or reuse of old identifiers.
#[derive(Clone, PartialEq, Eq, Debug)]
pub struct HumanShareCredit {
    policy: CreditPolicy,
    accounts: Vec<(CreditSubject, Position)>,
    permits: Vec<(PermitId, Permit)>,
    ious: Vec<Iou>,
}

/// The policy's bounds make sense.
pub open spec fn policy_valid(p: CreditPolicy) -> bool {
    &&& !root_is_blank(p.revision)
    &&& p.max_debt_per_human != 0
    &&& p.repayment_ppm != 0
    &&& p.repayment_ppm <= 1_000_000
    &&& p.max_permit_height_span != 0
    &&& p.max_accounts != 0
    &&& p.max_permits != 0
    &&& p.max_ious != 0
}

/// Where `key` sits among the accounts, if anywhere.
pub open spec fn account_index(accounts: Seq<(CreditSubject, Position)>, key: CreditSubject) -> Option<int> {
    if exists|i: int| 0 <= i < accounts.len() && (#[trigger] accounts[i]).0 == key {
        Some(choose|i: int| 0 <= i < accounts.len() && (#[trigger] accounts[i]).0 == key)
    } else {
        None
    }
}

/// Where `key` sits among the permits, if anywhere.
pub open spec fn permit_index(permits: Seq<(PermitId, Permit)>, key: PermitId) -> Option<int> {
    if exists|i: int| 0 <= i < permits.len() && (#[trigger] permits[i]).0 == key {
        Some(choose|i: int| 0 <= i < permits.len() && (#[trigger] permits[i]).0 == key)
    } else {
        None
    }
}

/// Where the IOU for `(permit, sequence)` sits, if anywhere.
pub open spec fn iou_index(ious: Seq<Iou>, permit: PermitId, sequence: u64) -> Option<int> {
    if exists|i: int|
        0 <= i < ious.len() && (#[trigger] ious[i]).permit_id == permit && ious[i].sequence
            == sequence {
        Some(
            choose|i: int|
                0 <= i < ious.len() && (#[trigger] ious[i]).permit_id == permit && ious[i].sequence
                    == sequence,
        )
    } else {
        None
    }
}

/// No key appears twice.
pub open spec fn keys_unique<K, V>(entries: Seq<(K, V)>) -> bool {
    forall|i: int, j: int|
        0 <= i < j < entries.len() ==> (#[trigger] entries[i]).0 != (#[trigger] entries[j]).0
}

/// No IOU slot appears twice.
pub open spec fn slots_unique(ious: Seq<Iou>) -> bool {
    forall|i: int, j: int|
        0 <= i < j < ious.len() ==> !((#[trigger] ious[i]).permit_id == (#[trigger] ious[j]).permit_id
            && ious[i].sequence == ious[j].sequence)
}

/// A position within its cap: debt and live allowance together never
/// exceed it, and the carried fraction stays below one unit.
pub open spec fn position_ok(p: Position) -> bool {
    &&& p.debt + p.unused_authorized <= p.cap
    &&& p.repayment_remainder < 1_000_000
    &&& p.last_share matches Some((_, s)) ==> split_balanced(s@)
}

/// What `subject` still owes: the unpaid rest of each of its IOUs, summed.
pub open spec fn debt_of(ious: Seq<Iou>, subject: CreditSubject) -> nat
    decreases ious.len(),
{
    if ious.len() == 0 {
        0
    } else {
        debt_of(ious.drop_last(), subject) + if ious.last().subject == subject {
            ious.last().remaining as nat
        } else {
            0
        }
    }
}

/// What one permit still allows its subject: the unused limit while live.
pub open spec fn allowance(p: Permit) -> nat {
    if p.expired {
        0
    } else {
        (p.verified.terms.limit_micro - p.used) as nat
    }
}

/// What `subject` may still borrow under its live permits, summed.
pub open spec fn unused_of(permits: Seq<(PermitId, Permit)>, subject: CreditSubject) -> nat
    decreases permits.len(),
{
    if permits.len() == 0 {
        0
    } else {
        unused_of(permits.drop_last(), subject) + if permits.last().1.subject == subject {
            allowance(permits.last().1)
        } else {
            0
        }
    }
}

proof fn lemma_debt_push(ious: Seq<Iou>, x: Iou, s: CreditSubject)
    ensures
        debt_of(ious.push(x), s) == debt_of(ious, s) + if x.subject == s {
            x.remaining as nat
        } else {
            0
        },
{
    assert(ious.push(x).drop_last() =~= ious);
}

proof fn lemma_debt_update(ious: Seq<Iou>, i: int, x: Iou, s: CreditSubject)
    requires
        0 <= i < ious.len(),
    ensures
        debt_of(ious.update(i, x), s) + (if ious[i].subject == s {
            ious[i].remaining as nat
        } else {
            0
        }) == debt_of(ious, s) + if x.subject == s {
            x.remaining as nat
        } else {
            0
        },
    decreases ious.len(),
{
    let u = ious.update(i, x);
    if i == ious.len() - 1 {
        assert(u.drop_last() =~= ious.drop_last());
    } else {
        assert(u.drop_last() =~= ious.drop_last().update(i, x));
        lemma_debt_update(ious.drop_last(), i, x, s);
    }
}

proof fn lemma_debt_absent(ious: Seq<Iou>, s: CreditSubject)
    requires
        forall|j: int| 0 <= j < ious.len() ==> (#[trigger] ious[j]).subject != s,
    ensures
        debt_of(ious, s) == 0,
    decreases ious.len(),
{
    if ious.len() > 0 {
        assert(ious.last() == ious[ious.len() - 1]);
        assert forall|j: int| 0 <= j < ious.drop_last().len() implies (
        #[trigger] ious.drop_last()[j]).subject != s by {
            assert(ious.drop_last()[j] == ious[j]);
        }
        lemma_debt_absent(ious.drop_last(), s);
    }
}

proof fn lemma_unused_push(ps: Seq<(PermitId, Permit)>, x: (PermitId, Permit), s: CreditSubject)
    ensures
        unused_of(ps.push(x), s) == unused_of(ps, s) + if x.1.subject == s {
            allowance(x.1)
        } else {
            0
        },
{
    assert(ps.push(x).drop_last() =~= ps);
}

proof fn lemma_unused_update(
    ps: Seq<(PermitId, Permit)>,
    i: int,
    x: (PermitId, Permit),
    s: CreditSubject,
)
    requires
        0 <= i < ps.len(),
    ensures
        unused_of(ps.update(i, x), s) + (if ps[i].1.subject == s {
            allowance(ps[i].1)
        } else {
            0
        }) == unused_of(ps, s) + if x.1.subject == s {
            allowance(x.1)
        } else {
            0
        },
    decreases ps.len(),
{
    let u = ps.update(i, x);
    if i == ps.len() - 1 {
        assert(u.drop_last() =~= ps.drop_last());
    } else {
        assert(u.drop_last() =~= ps.drop_last().update(i, x));
        lemma_unused_update(ps.drop_last(), i, x, s);
    }
}

proof fn lemma_unused_absent(ps: Seq<(PermitId, Permit)>, s: CreditSubject)
    requires
        forall|j: int| 0 <= j < ps.len() ==> (#[trigger] ps[j]).1.subject != s,
    ensures
        unused_of(ps, s) == 0,
    decreases ps.len(),
{
    if ps.len() > 0 {
        assert(ps.last() == ps[ps.len() - 1]);
        assert forall|j: int| 0 <= j < ps.drop_last().len() implies (
        #[trigger] ps.drop_last()[j]).1.subject != s by {
            assert(ps.drop_last()[j] == ps[j]);
        }
        lemma_unused_absent(ps.drop_last(), s);
    }
}

/// A live permit's allowance is part of its subject's total.
proof fn lemma_unused_part(ps: Seq<(PermitId, Permit)>, i: int)
    requires
        0 <= i < ps.len(),
    ensures
        allowance(ps[i].1) <= unused_of(ps, ps[i].1.subject),
    decreases ps.len(),
{
    let s = ps[i].1.subject;
    if i < ps.len() - 1 {
        assert(ps.drop_last()[i] == ps[i]);
        lemma_unused_part(ps.drop_last(), i);
    }
}

impl HumanShareCredit {
    pub closed spec fn policy(&self) -> CreditPolicy {
        self.policy
    }

    pub closed spec fn account_seq(&self) -> Seq<(CreditSubject, Position)> {
        self.accounts@
    }

    pub closed spec fn permit_seq(&self) -> Seq<(PermitId, Permit)> {
        self.permits@
    }

    pub closed spec fn iou_seq(&self) -> Seq<Iou> {
        self.ious@
    }

    /// The book's invariant: a valid policy, unique keys, every position
    /// within its cap, every permit's use within its limit, and bounded
    /// counts.
    pub open spec fn wf(&self) -> bool {
        &&& policy_valid(self.policy())
        &&& keys_unique(self.account_seq())
        &&& keys_unique(self.permit_seq())
        &&& slots_unique(self.iou_seq())
        &&& forall|i: int|
            0 <= i < self.account_seq().len() ==> position_ok(#[trigger] self.account_seq()[i].1)
        &&& forall|i: int|
            0 <= i < self.permit_seq().len() ==> (#[trigger] self.permit_seq()[i]).1.used
                <= self.permit_seq()[i].1.verified.terms.limit_micro
        &&& forall|i: int|
            0 <= i < self.permit_seq().len() ==> (#[trigger] self.permit_seq()[i]).1.verified.terms.issued_height
                <= self.permit_seq()[i].1.verified.terms.valid_through_height
        &&& forall|i: int|
            0 <= i < self.permit_seq().len() ==> self.account(
                (#[trigger] self.permit_seq()[i]).1.subject,
            ) is Some
        &&& self.account_seq().len() <= self.policy().max_accounts
        &&& self.permit_seq().len() <= self.policy().max_permits
        &&& self.iou_seq().len() <= self.policy().max_ious
    }

    /// The books balance: every position's debt is what its IOUs still
    /// owe, its unused allowance is what its live permits still allow, and
    /// every IOU belongs to an enrolled subject.
    pub open spec fn books_balanced(&self) -> bool {
        &&& forall|i: int|
            0 <= i < self.account_seq().len() ==> (#[trigger] self.account_seq()[i]).1.debt
                == debt_of(self.iou_seq(), self.account_seq()[i].0)
        &&& forall|i: int|
            0 <= i < self.account_seq().len() ==> (
            #[trigger] self.account_seq()[i]).1.unused_authorized == unused_of(
                self.permit_seq(),
                self.account_seq()[i].0,
            )
        &&& forall|j: int|
            0 <= j < self.iou_seq().len() ==> self.account((#[trigger] self.iou_seq()[j]).subject)
                is Some
    }

    /// The position of `subject`, if enrolled.
    pub open spec fn account(&self, subject: CreditSubject) -> Option<Position> {
        match account_index(self.account_seq(), subject) {
            Some(i) => Some(self.account_seq()[i].1),
            None => None,
        }
    }

    /// The registered permit `id`, if any.
    pub open spec fn permit(&self, id: PermitId) -> Option<Permit> {
        match permit_index(self.permit_seq(), id) {
            Some(i) => Some(self.permit_seq()[i].1),
            None => None,
        }
    }
}

/// Enrolling a new subject keeps the books: it owes nothing and may borrow
/// nothing yet.
proof fn lemma_enroll_books(before: HumanShareCredit, after: HumanShareCredit, subject: CreditSubject)
    requires
        before.wf(),
        before.books_balanced(),
        before.account(subject) is None,
        after.permit_seq() == before.permit_seq(),
        after.iou_seq() == before.iou_seq(),
        after.account_seq() == before.account_seq().push(
            (
                subject,
                Position {
                    cap: after.account_seq().last().1.cap,
                    debt: 0,
                    unused_authorized: 0,
                    repayment_remainder: 0,
                    last_share: None,
                },
            ),
        ),
    ensures
        after.books_balanced(),
{
    let olds = before.account_seq();
    let news = after.account_seq();
    let ious = before.iou_seq();
    let ps = before.permit_seq();
    assert forall|j: int| 0 <= j < ious.len() implies (#[trigger] ious[j]).subject != subject by {
        assert(before.account(ious[j].subject) is Some);
    }
    lemma_debt_absent(ious, subject);
    assert forall|j: int| 0 <= j < ps.len() implies (#[trigger] ps[j]).1.subject != subject by {
        assert(before.account(ps[j].1.subject) is Some);
    }
    lemma_unused_absent(ps, subject);
    assert forall|i: int| 0 <= i < news.len() implies (#[trigger] news[i]).1.debt == debt_of(
        after.iou_seq(),
        news[i].0,
    ) && news[i].1.unused_authorized == unused_of(after.permit_seq(), news[i].0) by {
        if i < olds.len() {
            assert(news[i] == olds[i]);
        }
    }
    assert forall|j: int| 0 <= j < after.iou_seq().len() implies after.account(
        (#[trigger] after.iou_seq()[j]).subject,
    ) is Some by {
        let sub = ious[j].subject;
        assert(before.account(sub) is Some);
        let w = account_index(olds, sub)->Some_0;
        assert(news[w] == olds[w]);
        lemma_account_at(news, w);
    }
}

/// Accounts that keep their keys in place keep every enrolled subject.
proof fn lemma_keys_kept(before: HumanShareCredit, after: HumanShareCredit, sub: CreditSubject)
    requires
        keys_unique(after.account_seq()),
        after.account_seq().len() == before.account_seq().len(),
        forall|k: int|
            0 <= k < after.account_seq().len() ==> (#[trigger] after.account_seq()[k]).0
                == before.account_seq()[k].0,
        before.account(sub) is Some,
    ensures
        after.account(sub) is Some,
{
    let w = account_index(before.account_seq(), sub)->Some_0;
    assert(after.account_seq()[w].0 == sub);
    lemma_account_at(after.account_seq(), w);
}

/// Registering a permit keeps the books: its whole limit joins its
/// subject's unused allowance.
proof fn lemma_register_books(
    before: HumanShareCredit,
    after: HumanShareCredit,
    ai: int,
    x: (PermitId, Permit),
)
    requires
        before.wf(),
        before.books_balanced(),
        keys_unique(after.account_seq()),
        0 <= ai < before.account_seq().len(),
        x.1.subject == before.account_seq()[ai].0,
        before.account_seq()[ai].1.unused_authorized + allowance(x.1) <= u64::MAX,
        after.iou_seq() == before.iou_seq(),
        after.permit_seq() == before.permit_seq().push(x),
        after.account_seq() == before.account_seq().update(
            ai,
            (
                before.account_seq()[ai].0,
                Position {
                    unused_authorized: (before.account_seq()[ai].1.unused_authorized + allowance(
                        x.1,
                    )) as u64,
                    ..before.account_seq()[ai].1
                },
            ),
        ),
    ensures
        after.books_balanced(),
{
    let olds = before.account_seq();
    let news = after.account_seq();
    assert forall|k: int| 0 <= k < news.len() implies (#[trigger] news[k]).1.debt == debt_of(
        after.iou_seq(),
        news[k].0,
    ) && news[k].1.unused_authorized == unused_of(after.permit_seq(), news[k].0) by {
        lemma_unused_push(before.permit_seq(), x, olds[k].0);
        assert(olds[k].1.debt == debt_of(before.iou_seq(), olds[k].0));
        assert(olds[k].1.unused_authorized == unused_of(before.permit_seq(), olds[k].0));
        if k != ai {
            assert(news[k] == olds[k]);
            assert(olds[k].0 != olds[ai].0);
        } else {
            assert(news[k].0 == olds[k].0);
        }
    }
    assert forall|j: int| 0 <= j < after.iou_seq().len() implies after.account(
        (#[trigger] after.iou_seq()[j]).subject,
    ) is Some by {
        lemma_keys_kept(before, after, after.iou_seq()[j].subject);
    }
}

/// Recording an IOU keeps the books: the amount moves from its subject's
/// unused allowance to its debt, and the new IOU owes all of it.
proof fn lemma_record_books(
    before: HumanShareCredit,
    after: HumanShareCredit,
    pi: int,
    ai: int,
    amount: u64,
    x: Iou,
)
    requires
        before.wf(),
        before.books_balanced(),
        keys_unique(after.account_seq()),
        0 <= pi < before.permit_seq().len(),
        0 <= ai < before.account_seq().len(),
        !before.permit_seq()[pi].1.expired,
        before.permit_seq()[pi].1.used + amount <= before.permit_seq()[pi].1.verified.terms.limit_micro,
        before.permit_seq()[pi].1.subject == before.account_seq()[ai].0,
        x.subject == before.account_seq()[ai].0,
        x.remaining == amount,
        before.account_seq()[ai].1.debt + amount <= u64::MAX,
        before.account_seq()[ai].1.unused_authorized >= amount,
        after.permit_seq() == before.permit_seq().update(
            pi,
            (
                before.permit_seq()[pi].0,
                Permit {
                    used: (before.permit_seq()[pi].1.used + amount) as u64,
                    ..before.permit_seq()[pi].1
                },
            ),
        ),
        after.account_seq() == before.account_seq().update(
            ai,
            (
                before.account_seq()[ai].0,
                Position {
                    debt: (before.account_seq()[ai].1.debt + amount) as u64,
                    unused_authorized: (before.account_seq()[ai].1.unused_authorized - amount) as u64,
                    ..before.account_seq()[ai].1
                },
            ),
        ),
        after.iou_seq() == before.iou_seq().push(x),
    ensures
        after.books_balanced(),
{
    let olds = before.account_seq();
    let news = after.account_seq();
    let oldp = before.permit_seq();
    let p = oldp[pi].1;
    let np = (oldp[pi].0, Permit { used: (p.used + amount) as u64, ..p });
    assert(allowance(np.1) + amount == allowance(p));
    assert forall|k: int| 0 <= k < news.len() implies (#[trigger] news[k]).1.debt == debt_of(
        after.iou_seq(),
        news[k].0,
    ) && news[k].1.unused_authorized == unused_of(after.permit_seq(), news[k].0) by {
        lemma_debt_push(before.iou_seq(), x, olds[k].0);
        lemma_unused_update(oldp, pi, np, olds[k].0);
        assert(olds[k].1.debt == debt_of(before.iou_seq(), olds[k].0));
        assert(olds[k].1.unused_authorized == unused_of(oldp, olds[k].0));
        if k != ai {
            assert(news[k] == olds[k]);
            assert(olds[k].0 != olds[ai].0);
        } else {
            assert(news[k].0 == olds[k].0);
        }
    }
    assert forall|j: int| 0 <= j < after.iou_seq().len() implies after.account(
        (#[trigger] after.iou_seq()[j]).subject,
    ) is Some by {
        let sub = after.iou_seq()[j].subject;
        if j < before.iou_seq().len() {
            assert(after.iou_seq()[j] == before.iou_seq()[j]);
        } else {
            lemma_account_at(olds, ai);
        }
        lemma_keys_kept(before, after, sub);
    }
}

/// On balanced books an IOU within its permit's limit always fits: the
/// only arithmetic refusal left is a permit use that would overflow.
pub proof fn lemma_record_arithmetic(c: HumanShareCredit, iou: VerifiedCreditIou, canonical_height: u64)
    requires
        c.wf(),
        c.books_balanced(),
    ensures
        c.record_outcome(iou, canonical_height) == Err::<bool, CreditError>(CreditError::Arithmetic)
            ==> c.permit(iou.terms.permit_id)->Some_0.used + iou.terms.amount_micro > u64::MAX,
{
    let t = iou.terms;
    if iou_index(c.iou_seq(), t.permit_id, t.sequence) is None && c.permit(t.permit_id) is Some {
        let pi = permit_index(c.permit_seq(), t.permit_id)->Some_0;
        let p = c.permit_seq()[pi].1;
        if !p.expired && p.used + t.amount_micro <= p.verified.terms.limit_micro && c.account(
            p.subject,
        ) is Some {
            let ai = account_index(c.account_seq(), p.subject)->Some_0;
            let acc = c.account_seq()[ai].1;
            assert(acc.unused_authorized == unused_of(c.permit_seq(), c.account_seq()[ai].0));
            lemma_unused_part(c.permit_seq(), pi);
            assert(position_ok(c.account_seq()[ai].1));
        }
    }
}

/// Expiring a permit keeps the books: what it still allowed leaves its
/// subject's unused allowance; debt recorded under it stays.
proof fn lemma_expire_books(before: HumanShareCredit, after: HumanShareCredit, pi: int, ai: int)
    requires
        before.wf(),
        before.books_balanced(),
        keys_unique(after.account_seq()),
        0 <= pi < before.permit_seq().len(),
        0 <= ai < before.account_seq().len(),
        !before.permit_seq()[pi].1.expired,
        before.permit_seq()[pi].1.subject == before.account_seq()[ai].0,
        before.account_seq()[ai].1.unused_authorized >= allowance(before.permit_seq()[pi].1),
        after.iou_seq() == before.iou_seq(),
        after.permit_seq() == before.permit_seq().update(
            pi,
            (before.permit_seq()[pi].0, Permit { expired: true, ..before.permit_seq()[pi].1 }),
        ),
        after.account_seq() == before.account_seq().update(
            ai,
            (
                before.account_seq()[ai].0,
                Position {
                    unused_authorized: (before.account_seq()[ai].1.unused_authorized - allowance(
                        before.permit_seq()[pi].1,
                    )) as u64,
                    ..before.account_seq()[ai].1
                },
            ),
        ),
    ensures
        after.books_balanced(),
{
    let olds = before.account_seq();
    let news = after.account_seq();
    let oldp = before.permit_seq();
    let p = oldp[pi].1;
    let np = (oldp[pi].0, Permit { expired: true, ..p });
    assert(allowance(np.1) == 0);
    assert forall|k: int| 0 <= k < news.len() implies (#[trigger] news[k]).1.debt == debt_of(
        after.iou_seq(),
        news[k].0,
    ) && news[k].1.unused_authorized == unused_of(after.permit_seq(), news[k].0) by {
        lemma_unused_update(oldp, pi, np, olds[k].0);
        assert(olds[k].1.debt == debt_of(before.iou_seq(), olds[k].0));
        assert(olds[k].1.unused_authorized == unused_of(oldp, olds[k].0));
        if k != ai {
            assert(news[k] == olds[k]);
            assert(olds[k].0 != olds[ai].0);
        } else {
            assert(news[k].0 == olds[k].0);
        }
    }
    assert forall|j: int| 0 <= j < after.iou_seq().len() implies after.account(
        (#[trigger] after.iou_seq()[j]).subject,
    ) is Some by {
        lemma_keys_kept(before, after, after.iou_seq()[j].subject);
    }
}

/// On balanced books expiring a permit never fails for arithmetic: its
/// subject's unused allowance always covers what the permit still allows.
pub proof fn lemma_expire_arithmetic(c: HumanShareCredit, id: PermitId, canonical_height: u64)
    requires
        c.wf(),
        c.books_balanced(),
    ensures
        c.expire_outcome(id, canonical_height) != Err::<(), CreditError>(CreditError::Arithmetic),
{
    if c.permit(id) is Some {
        let pi = permit_index(c.permit_seq(), id)->Some_0;
        let p = c.permit_seq()[pi].1;
        if !p.expired {
            assert(c.account(p.subject) is Some);
            let ai = account_index(c.account_seq(), p.subject)->Some_0;
            assert(c.account_seq()[ai].1.unused_authorized == unused_of(
                c.permit_seq(),
                c.account_seq()[ai].0,
            ));
            lemma_unused_part(c.permit_seq(), pi);
        }
    }
}

fn same32(a: &[u8; 32], b: &[u8; 32]) -> (eq: bool)
    ensures
        eq == (*a == *b),
{
    let mut i: usize = 0;
    while i < 32
        invariant
            i <= 32,
            a@.len() == 32,
            b@.len() == 32,
            forall|j: int| 0 <= j < i ==> a@[j] == b@[j],
        decreases 32 - i,
    {
        if a[i] != b[i] {
            return false;
        }
        i = i + 1;
    }
    proof {
        broadcast use vstd::array::axiom_array_ext_equal;
        broadcast use vstd::array::lemma_array_index;

        assert(*a =~= *b);
    }
    true
}

proof fn lemma_account_at(accounts: Seq<(CreditSubject, Position)>, i: int)
    requires
        keys_unique(accounts),
        0 <= i < accounts.len(),
    ensures
        account_index(accounts, accounts[i].0) == Some(i),
{
    let k = accounts[i].0;
    assert(exists|j: int| 0 <= j < accounts.len() && (#[trigger] accounts[j]).0 == k);
    let j = choose|j: int| 0 <= j < accounts.len() && (#[trigger] accounts[j]).0 == k;
    if j != i {
        if j < i {
            assert(accounts[j].0 != accounts[i].0);
        } else {
            assert(accounts[i].0 != accounts[j].0);
        }
    }
}

proof fn lemma_permit_at(permits: Seq<(PermitId, Permit)>, i: int)
    requires
        keys_unique(permits),
        0 <= i < permits.len(),
    ensures
        permit_index(permits, permits[i].0) == Some(i),
{
    let k = permits[i].0;
    assert(exists|j: int| 0 <= j < permits.len() && (#[trigger] permits[j]).0 == k);
    let j = choose|j: int| 0 <= j < permits.len() && (#[trigger] permits[j]).0 == k;
    if j != i {
        if j < i {
            assert(permits[j].0 != permits[i].0);
        } else {
            assert(permits[i].0 != permits[j].0);
        }
    }
}

proof fn lemma_iou_at(ious: Seq<Iou>, i: int)
    requires
        slots_unique(ious),
        0 <= i < ious.len(),
    ensures
        iou_index(ious, ious[i].permit_id, ious[i].sequence) == Some(i),
{
    let k = ious[i].permit_id;
    let q = ious[i].sequence;
    assert(exists|j: int|
        0 <= j < ious.len() && (#[trigger] ious[j]).permit_id == k && ious[j].sequence == q);
    let j = choose|j: int|
        0 <= j < ious.len() && (#[trigger] ious[j]).permit_id == k && ious[j].sequence == q;
    if j != i {
        if j < i {
            assert(!(ious[j].permit_id == ious[i].permit_id && ious[j].sequence == ious[i].sequence));
        } else {
            assert(!(ious[i].permit_id == ious[j].permit_id && ious[i].sequence == ious[j].sequence));
        }
    }
}

fn find_account(accounts: &Vec<(CreditSubject, Position)>, subject: &CreditSubject) -> (r: Option<usize>)
    requires
        keys_unique(accounts@),
    ensures
        match r {
            Some(i) => i < accounts@.len() && accounts@[i as int].0 == *subject && account_index(
                accounts@,
                *subject,
            ) == Some(i as int),
            None => account_index(accounts@, *subject) is None,
        },
{
    let mut i: usize = 0;
    while i < accounts.len()
        invariant
            i <= accounts@.len(),
            keys_unique(accounts@),
            forall|j: int| 0 <= j < i ==> (#[trigger] accounts@[j]).0 != *subject,
        decreases accounts@.len() - i,
    {
        if same32(&accounts[i].0, subject) {
            proof {
                lemma_account_at(accounts@, i as int);
            }
            return Some(i);
        }
        i = i + 1;
    }
    None
}

fn find_permit(permits: &Vec<(PermitId, Permit)>, id: &PermitId) -> (r: Option<usize>)
    requires
        keys_unique(permits@),
    ensures
        match r {
            Some(i) => i < permits@.len() && permits@[i as int].0 == *id && permit_index(
                permits@,
                *id,
            ) == Some(i as int),
            None => permit_index(permits@, *id) is None,
        },
{
    let mut i: usize = 0;
    while i < permits.len()
        invariant
            i <= permits@.len(),
            keys_unique(permits@),
            forall|j: int| 0 <= j < i ==> (#[trigger] permits@[j]).0 != *id,
        decreases permits@.len() - i,
    {
        if same32(&permits[i].0, id) {
            proof {
                lemma_permit_at(permits@, i as int);
            }
            return Some(i);
        }
        i = i + 1;
    }
    None
}

fn find_iou(ious: &Vec<Iou>, permit: &PermitId, sequence: u64) -> (r: Option<usize>)
    requires
        slots_unique(ious@),
    ensures
        match r {
            Some(i) => i < ious@.len() && ious@[i as int].permit_id == *permit && ious@[i as int].sequence
                == sequence && iou_index(ious@, *permit, sequence) == Some(i as int),
            None => iou_index(ious@, *permit, sequence) is None,
        },
{
    let mut i: usize = 0;
    while i < ious.len()
        invariant
            i <= ious@.len(),
            slots_unique(ious@),
            forall|j: int|
                0 <= j < i ==> !((#[trigger] ious@[j]).permit_id == *permit && ious@[j].sequence
                    == sequence),
        decreases ious@.len() - i,
    {
        if ious[i].sequence == sequence && same32(&ious[i].permit_id, permit) {
            proof {
                lemma_iou_at(ious@, i as int);
            }
            return Some(i);
        }
        i = i + 1;
    }
    None
}

impl HumanShareCredit {
    /// An empty book under a policy whose bounds make sense.
    pub fn new(policy: CreditPolicy) -> (r: Result<HumanShareCredit, CreditError>)
        ensures
            policy_valid(policy) ==> (r matches Ok(b) && b.wf() && b.books_balanced() && b.policy()
                == policy && b.account_seq().len() == 0 && b.permit_seq().len() == 0
                && b.iou_seq().len() == 0),
            !policy_valid(policy) ==> r == Err::<HumanShareCredit, CreditError>(
                CreditError::InvalidPolicy,
            ),
    {
        if is_blank_root(&policy.revision) || policy.max_debt_per_human == 0
            || policy.repayment_ppm == 0 || policy.repayment_ppm > 1_000_000
            || policy.max_permit_height_span == 0 || policy.max_accounts == 0
            || policy.max_permits == 0 || policy.max_ious == 0 {
            return Err(CreditError::InvalidPolicy);
        }
        Ok(HumanShareCredit { policy, accounts: Vec::new(), permits: Vec::new(), ious: Vec::new() })
    }

    /// Admit an eligible human with an approved cap. Re-enrollment cannot
    /// erase debts or obtain another allowance.
    pub fn enroll(&mut self, subject: CreditSubject, approved_cap_micro: u64) -> (r: Result<
        (),
        CreditError,
    >)
        requires
            old(self).wf(),
        ensures
            final(self).wf(),
            root_is_blank(subject) || approved_cap_micro == 0 || approved_cap_micro > old(
                self,
            ).policy().max_debt_per_human ==> r == Err::<(), CreditError>(
                CreditError::InvalidTerms,
            ) && *final(self) == *old(self),
            !(root_is_blank(subject) || approved_cap_micro == 0 || approved_cap_micro > old(
                self,
            ).policy().max_debt_per_human) && (old(self).account(subject) is Some || old(
                self,
            ).account_seq().len() >= old(self).policy().max_accounts) ==> r == Err::<
                (),
                CreditError,
            >(CreditError::LimitExceeded) && *final(self) == *old(self),
            r is Ok ==> final(self).policy() == old(self).policy() && final(self).permit_seq()
                == old(self).permit_seq() && final(self).iou_seq() == old(self).iou_seq()
                && final(self).account_seq() == old(self).account_seq().push(
                (
                    subject,
                    Position {
                        cap: approved_cap_micro,
                        debt: 0,
                        unused_authorized: 0,
                        repayment_remainder: 0,
                        last_share: None,
                    },
                ),
            ),
            r is Ok <==> !(root_is_blank(subject) || approved_cap_micro == 0 || approved_cap_micro
                > old(self).policy().max_debt_per_human) && old(self).account(subject) is None
                && old(self).account_seq().len() < old(self).policy().max_accounts,
            old(self).books_balanced() ==> final(self).books_balanced(),
    {
        if is_blank_root(&subject) || approved_cap_micro == 0 || approved_cap_micro
            > self.policy.max_debt_per_human {
            return Err(CreditError::InvalidTerms);
        }
        if find_account(&self.accounts, &subject).is_some() || self.accounts.len()
            >= self.policy.max_accounts {
            return Err(CreditError::LimitExceeded);
        }
        let ghost before = self.accounts@;
        let ghost prior = *self;
        self.accounts.push(
            (
                subject,
                Position {
                    cap: approved_cap_micro,
                    debt: 0,
                    unused_authorized: 0,
                    repayment_remainder: 0,
                    last_share: None,
                },
            ),
        );
        proof {
            if prior.books_balanced() {
                lemma_enroll_books(prior, *self, subject);
            }
            assert forall|i: int, j: int| 0 <= i < j < self.accounts@.len() implies (
            #[trigger] self.accounts@[i]).0 != (#[trigger] self.accounts@[j]).0 by {
                if j == before.len() {
                    if self.accounts@[i].0 == subject {
                        assert(before[i].0 == subject);
                    }
                } else {
                    assert(before[i] == self.accounts@[i] && before[j] == self.accounts@[j]);
                }
            }
            assert forall|i: int| 0 <= i < self.accounts@.len() implies position_ok(
                #[trigger] self.accounts@[i].1,
            ) by {
                if i < before.len() {
                    assert(before[i] == self.accounts@[i]);
                }
            }
            let ps = self.permits@;
            assert forall|a: int| 0 <= a < ps.len() implies self.account(
                (#[trigger] ps[a]).1.subject,
            ) is Some by {
                let sub = ps[a].1.subject;
                let w = account_index(before, sub)->Some_0;
                assert(self.accounts@[w] == before[w]);
                lemma_account_at(self.accounts@, w);
            }
        }
        Ok(())
    }

    /// The unpaid debt of `subject`, if enrolled.
    pub fn debt_micro(&self, subject: &CreditSubject) -> (r: Option<u64>)
        requires
            self.wf(),
        ensures
            r == match self.account(*subject) {
                Some(p) => Some(p.debt),
                None => None::<u64>,
            },
    {
        match find_account(&self.accounts, subject) {
            Some(i) => Some(self.accounts[i].1.debt),
            None => None,
        }
    }

    /// How much more allowance `subject` may still be granted: the cap
    /// less debt and live allowance.
    pub fn new_allowance_capacity(&self, subject: &CreditSubject) -> (r: Result<u64, CreditError>)
        requires
            self.wf(),
        ensures
            r == match self.account(*subject) {
                Some(p) => Ok::<u64, CreditError>((p.cap - p.debt - p.unused_authorized) as u64),
                None => Err::<u64, CreditError>(CreditError::UnknownAccount),
            },
    {
        match find_account(&self.accounts, subject) {
            Some(i) => {
                let p = &self.accounts[i].1;
                assert(position_ok(self.accounts@[i as int].1));
                Ok(p.cap - p.debt - p.unused_authorized)
            },
            None => Err(CreditError::UnknownAccount),
        }
    }

    /// What is left of a permit's allowance: nothing once expired.
    pub fn permit_remaining(&self, id: &PermitId) -> (r: Option<u64>)
        requires
            self.wf(),
        ensures
            r == match self.permit(*id) {
                Some(p) => Some(
                    if p.expired {
                        0
                    } else {
                        (p.verified.terms.limit_micro - p.used) as u64
                    },
                ),
                None => None::<u64>,
            },
    {
        match find_permit(&self.permits, id) {
            Some(i) => {
                let p = &self.permits[i].1;
                assert(self.permits@[i as int].1.used <= self.permits@[i as int].1.verified.terms.limit_micro);
                Some(
                    if p.expired {
                        0
                    } else {
                        p.verified.terms.limit_micro - p.used
                    },
                )
            },
            None => None,
        }
    }
}

fn same_terms(a: &CreditPermitTerms, b: &CreditPermitTerms) -> (eq: bool)
    ensures
        eq == (*a == *b),
{
    same32(&a.network_id, &b.network_id) && same32(&a.policy_revision, &b.policy_revision)
        && same32(&a.serial, &b.serial) && same32(&a.borrower_key, &b.borrower_key)
        && a.limit_micro == b.limit_micro && a.issued_height == b.issued_height
        && a.valid_through_height == b.valid_through_height
}

/// Why a permit's terms are refused by the policy, if they are.
pub open spec fn terms_refused(policy: CreditPolicy, t: CreditPermitTerms) -> bool {
    t.network_id != policy.network_id || t.policy_revision != policy.revision
        || t.valid_through_height - t.issued_height > policy.max_permit_height_span
}

impl HumanShareCredit {
    /// The outcome of registering `permit` for `subject` at
    /// `canonical_height`, as the first failing check decides it.
    pub open spec fn register_outcome(
        &self,
        subject: CreditSubject,
        permit: VerifiedCreditPermit,
        canonical_height: u64,
    ) -> Result<bool, CreditError> {
        let t = permit.terms;
        if terms_refused(self.policy(), t) {
            Err(CreditError::InvalidTerms)
        } else if self.permit(permit.id) is Some {
            let old = self.permit(permit.id)->Some_0;
            if old.subject == subject && old.verified == permit {
                Ok(false)
            } else {
                Err(CreditError::PermitConflict)
            }
        } else if canonical_height != t.issued_height {
            Err(CreditError::OutsideWindow)
        } else if self.permit_seq().len() >= self.policy().max_permits {
            Err(CreditError::LimitExceeded)
        } else if self.account(subject) is None {
            Err(CreditError::UnknownAccount)
        } else {
            let p = self.account(subject)->Some_0;
            if t.limit_micro > p.cap - p.debt - p.unused_authorized {
                Err(CreditError::LimitExceeded)
            } else {
                Ok(true)
            }
        }
    }

    /// Register the exact online-issued permit before offline use. A
    /// refresh is another permit: it does not reset old budgets, erase debt,
    /// or invalidate still-valid promises; unused limits across devices
    /// consume one shared cap.
    pub fn register_permit(
        &mut self,
        subject: CreditSubject,
        permit: VerifiedCreditPermit,
        canonical_height: u64,
    ) -> (r: Result<bool, CreditError>)
        requires
            old(self).wf(),
            permit.terms.issued_height <= permit.terms.valid_through_height,
        ensures
            final(self).wf(),
            r == old(self).register_outcome(subject, permit, canonical_height),
            r != Ok::<bool, CreditError>(true) ==> *final(self) == *old(self),
            r == Ok::<bool, CreditError>(true) ==> ({
                let i = account_index(old(self).account_seq(), subject)->Some_0;
                let p = old(self).account_seq()[i].1;
                &&& final(self).policy() == old(self).policy()
                &&& final(self).iou_seq() == old(self).iou_seq()
                &&& final(self).permit_seq() == old(self).permit_seq().push(
                    (permit.id, Permit { subject, verified: permit, used: 0, expired: false }),
                )
                &&& final(self).account_seq() == old(self).account_seq().update(
                    i,
                    (
                        subject,
                        Position {
                            unused_authorized: (p.unused_authorized + permit.terms.limit_micro) as u64,
                            ..p
                        },
                    ),
                )
            }),
            old(self).books_balanced() ==> final(self).books_balanced(),
    {
        let terms = permit.terms;
        if !same32(&terms.network_id, &self.policy.network_id) || !same32(
            &terms.policy_revision,
            &self.policy.revision,
        ) || terms.valid_through_height - terms.issued_height > self.policy.max_permit_height_span {
            return Err(CreditError::InvalidTerms);
        }
        match find_permit(&self.permits, &permit.id) {
            Some(k) => {
                let old = self.permits[k].1;
                if same32(&old.subject, &subject) && same32(&old.verified.id, &permit.id)
                    && same_terms(&old.verified.terms, &permit.terms) {
                    return Ok(false);
                } else {
                    return Err(CreditError::PermitConflict);
                }
            },
            None => {},
        }
        if canonical_height != terms.issued_height {
            return Err(CreditError::OutsideWindow);
        }
        if self.permits.len() >= self.policy.max_permits {
            return Err(CreditError::LimitExceeded);
        }
        let i = match find_account(&self.accounts, &subject) {
            Some(i) => i,
            None => {
                return Err(CreditError::UnknownAccount);
            },
        };
        assert(position_ok(self.accounts@[i as int].1));
        let capacity = self.accounts[i].1.cap - self.accounts[i].1.debt
            - self.accounts[i].1.unused_authorized;
        if terms.limit_micro > capacity {
            return Err(CreditError::LimitExceeded);
        }
        let ghost before = *self;
        let (key, position) = self.accounts.remove(i);
        let unused = position.unused_authorized + terms.limit_micro;
        self.accounts.insert(
            i,
            (
                key,
                Position {
                    cap: position.cap,
                    debt: position.debt,
                    unused_authorized: unused,
                    repayment_remainder: position.repayment_remainder,
                    last_share: position.last_share,
                },
            ),
        );
        self.permits.push((permit.id, Permit { subject, verified: permit, used: 0, expired: false }));
        proof {
            let accts = self.accounts@;
            let olds = before.accounts@;
            assert(accts =~= olds.update(i as int, accts[i as int]));
            assert forall|a: int, b: int| 0 <= a < b < accts.len() implies (
            #[trigger] accts[a]).0 != (#[trigger] accts[b]).0 by {
                assert(olds[a].0 == accts[a].0 && olds[b].0 == accts[b].0);
            }
            assert forall|a: int| 0 <= a < accts.len() implies position_ok(
                #[trigger] accts[a].1,
            ) by {
                if a != i {
                    assert(olds[a] == accts[a]);
                }
            }
            let ps = self.permits@;
            let oldp = before.permits@;
            assert forall|a: int, b: int| 0 <= a < b < ps.len() implies (#[trigger] ps[a]).0 != (
            #[trigger] ps[b]).0 by {
                if b == oldp.len() {
                    if ps[a].0 == permit.id {
                        assert(oldp[a].0 == permit.id);
                    }
                } else {
                    assert(oldp[a] == ps[a] && oldp[b] == ps[b]);
                }
            }
            assert forall|a: int| 0 <= a < ps.len() implies (#[trigger] ps[a]).1.used
                <= ps[a].1.verified.terms.limit_micro by {
                if a < oldp.len() {
                    assert(oldp[a] == ps[a]);
                }
            }
            assert forall|a: int| 0 <= a < ps.len() implies (#[trigger] ps[a]).1.verified.terms.issued_height
                <= ps[a].1.verified.terms.valid_through_height by {
                if a < oldp.len() {
                    assert(oldp[a] == ps[a]);
                }
            }
            assert forall|a: int| 0 <= a < ps.len() implies self.account(
                (#[trigger] ps[a]).1.subject,
            ) is Some by {
                let sub = ps[a].1.subject;
                if a < oldp.len() {
                    assert(oldp[a] == ps[a]);
                    assert(before.account(sub) is Some);
                    let w = account_index(olds, sub)->Some_0;
                    assert(accts[w].0 == sub);
                    lemma_account_at(accts, w);
                } else {
                    lemma_account_at(accts, i as int);
                }
            }
            if before.books_balanced() {
                lemma_register_books(
                    before,
                    *self,
                    i as int,
                    (permit.id, Permit { subject, verified: permit, used: 0, expired: false }),
                );
            }
        }
        Ok(true)
    }
}

impl HumanShareCredit {
    /// The outcome of recording `iou` at `canonical_height`, as the first
    /// failing check decides it.
    pub open spec fn record_outcome(&self, iou: VerifiedCreditIou, canonical_height: u64) -> Result<
        bool,
        CreditError,
    > {
        let t = iou.terms;
        match iou_index(self.iou_seq(), t.permit_id, t.sequence) {
            Some(j) => if self.iou_seq()[j].digest == iou.digest {
                Ok(false)
            } else {
                Err(CreditError::IouConflict)
            },
            None => match self.permit(t.permit_id) {
                None => Err(CreditError::UnknownPermit),
                Some(p) => {
                    let a = p.verified.terms;
                    if p.expired || canonical_height < a.issued_height || canonical_height
                        > a.valid_through_height {
                        Err(CreditError::OutsideWindow)
                    } else if self.iou_seq().len() >= self.policy().max_ious {
                        Err(CreditError::LimitExceeded)
                    } else if p.used + t.amount_micro > u64::MAX {
                        Err(CreditError::Arithmetic)
                    } else if p.used + t.amount_micro > a.limit_micro {
                        Err(CreditError::LimitExceeded)
                    } else {
                        match self.account(p.subject) {
                            None => Err(CreditError::UnknownAccount),
                            Some(acc) => if acc.debt + t.amount_micro > u64::MAX
                                || acc.unused_authorized < t.amount_micro {
                                Err(CreditError::Arithmetic)
                            } else {
                                Ok(true)
                            },
                        }
                    }
                },
            },
        }
    }

    /// How `record_iou` answers, case by case: an exact replay of a
    /// recorded IOU changes nothing, the same sequence with other contents
    /// is a conflict, an unknown permit is refused, a permit outside its
    /// height window (or expired) is refused, and an IOU that would take
    /// the permit past its allowance is refused as over the limit.
    pub proof fn lemma_record_cases(&self, iou: VerifiedCreditIou, canonical_height: u64)
        ensures
            ({
                let t = iou.terms;
                let r = self.record_outcome(iou, canonical_height);
                &&& iou_index(self.iou_seq(), t.permit_id, t.sequence) matches Some(j) ==> r == if self.iou_seq()[j].digest
                    == iou.digest {
                    Ok::<bool, CreditError>(false)
                } else {
                    Err::<bool, CreditError>(CreditError::IouConflict)
                }
                &&& iou_index(self.iou_seq(), t.permit_id, t.sequence) is None && self.permit(
                    t.permit_id,
                ) is None ==> r == Err::<bool, CreditError>(CreditError::UnknownPermit)
                &&& iou_index(self.iou_seq(), t.permit_id, t.sequence) is None && (self.permit(
                    t.permit_id,
                ) matches Some(p) && (p.expired || canonical_height
                    < p.verified.terms.issued_height || canonical_height
                    > p.verified.terms.valid_through_height)) ==> r == Err::<bool, CreditError>(
                    CreditError::OutsideWindow,
                )
                &&& iou_index(self.iou_seq(), t.permit_id, t.sequence) is None && (self.permit(
                    t.permit_id,
                ) matches Some(p) && !p.expired && p.verified.terms.issued_height
                    <= canonical_height <= p.verified.terms.valid_through_height && (
                self.iou_seq().len() >= self.policy().max_ious || (p.used + t.amount_micro
                    <= u64::MAX && p.used + t.amount_micro > p.verified.terms.limit_micro)))
                    ==> r == Err::<bool, CreditError>(CreditError::LimitExceeded)
            }),
    {
    }

    /// Record a debt in canonical arrival order, not a settled payment. A
    /// copied permit cannot admit IOUs above its total allowance; reusing a
    /// sequence with other signed contents is a conflict and an exact
    /// replay changes nothing.
    pub fn record_iou(&mut self, iou: &VerifiedCreditIou, canonical_height: u64) -> (r: Result<
        bool,
        CreditError,
    >)
        requires
            old(self).wf(),
        ensures
            final(self).wf(),
            r == old(self).record_outcome(*iou, canonical_height),
            r != Ok::<bool, CreditError>(true) ==> *final(self) == *old(self),
            r == Ok::<bool, CreditError>(true) ==> ({
                let t = iou.terms;
                let pi = permit_index(old(self).permit_seq(), t.permit_id)->Some_0;
                let p = old(self).permit_seq()[pi].1;
                let ai = account_index(old(self).account_seq(), p.subject)->Some_0;
                let acc = old(self).account_seq()[ai].1;
                &&& final(self).policy() == old(self).policy()
                &&& final(self).permit_seq() == old(self).permit_seq().update(
                    pi,
                    (t.permit_id, Permit { used: (p.used + t.amount_micro) as u64, ..p }),
                )
                &&& final(self).account_seq() == old(self).account_seq().update(
                    ai,
                    (
                        p.subject,
                        Position {
                            debt: (acc.debt + t.amount_micro) as u64,
                            unused_authorized: (acc.unused_authorized - t.amount_micro) as u64,
                            ..acc
                        },
                    ),
                )
                &&& final(self).iou_seq() == old(self).iou_seq().push(
                    Iou {
                        permit_id: t.permit_id,
                        sequence: t.sequence,
                        subject: p.subject,
                        digest: iou.digest,
                        payee: t.payee_commitment,
                        remaining: t.amount_micro,
                    },
                )
            }),
            old(self).books_balanced() ==> final(self).books_balanced(),
    {
        let t = iou.terms;
        match find_iou(&self.ious, &t.permit_id, t.sequence) {
            Some(j) => {
                if same32(&self.ious[j].digest, &iou.digest) {
                    return Ok(false);
                } else {
                    return Err(CreditError::IouConflict);
                }
            },
            None => {},
        }
        let pi = match find_permit(&self.permits, &t.permit_id) {
            Some(k) => k,
            None => {
                return Err(CreditError::UnknownPermit);
            },
        };
        let permit = self.permits[pi].1;
        let authorized = permit.verified.terms;
        if permit.expired || canonical_height < authorized.issued_height || canonical_height
            > authorized.valid_through_height {
            return Err(CreditError::OutsideWindow);
        }
        if self.ious.len() >= self.policy.max_ious {
            return Err(CreditError::LimitExceeded);
        }
        let used = match permit.used.checked_add(t.amount_micro) {
            Some(u) => u,
            None => {
                return Err(CreditError::Arithmetic);
            },
        };
        if used > authorized.limit_micro {
            return Err(CreditError::LimitExceeded);
        }
        let subject = permit.subject;
        let ai = match find_account(&self.accounts, &subject) {
            Some(i) => i,
            None => {
                return Err(CreditError::UnknownAccount);
            },
        };
        let debt = match self.accounts[ai].1.debt.checked_add(t.amount_micro) {
            Some(d) => d,
            None => {
                return Err(CreditError::Arithmetic);
            },
        };
        let unused = match self.accounts[ai].1.unused_authorized.checked_sub(t.amount_micro) {
            Some(u) => u,
            None => {
                return Err(CreditError::Arithmetic);
            },
        };
        let ghost before = *self;
        self.permits.set(pi, (t.permit_id, Permit { used, ..permit }));
        let (key, position) = self.accounts.remove(ai);
        self.accounts.insert(
            ai,
            (
                key,
                Position {
                    cap: position.cap,
                    debt,
                    unused_authorized: unused,
                    repayment_remainder: position.repayment_remainder,
                    last_share: position.last_share,
                },
            ),
        );
        self.ious.push(
            Iou {
                permit_id: t.permit_id,
                sequence: t.sequence,
                subject,
                digest: iou.digest,
                payee: t.payee_commitment,
                remaining: t.amount_micro,
            },
        );
        proof {
            let accts = self.accounts@;
            let olds = before.accounts@;
            assert(accts =~= olds.update(ai as int, accts[ai as int]));
            assert forall|a: int, b: int| 0 <= a < b < accts.len() implies (
            #[trigger] accts[a]).0 != (#[trigger] accts[b]).0 by {
                assert(olds[a].0 == accts[a].0 && olds[b].0 == accts[b].0);
            }
            assert forall|a: int| 0 <= a < accts.len() implies position_ok(
                #[trigger] accts[a].1,
            ) by {
                if a != ai {
                    assert(olds[a] == accts[a]);
                } else {
                    assert(position_ok(olds[a].1));
                }
            }
            let ps = self.permits@;
            let oldp = before.permits@;
            assert forall|a: int, b: int| 0 <= a < b < ps.len() implies (#[trigger] ps[a]).0 != (
            #[trigger] ps[b]).0 by {
                assert(oldp[a].0 == ps[a].0 && oldp[b].0 == ps[b].0);
            }
            assert forall|a: int| 0 <= a < ps.len() implies (#[trigger] ps[a]).1.used
                <= ps[a].1.verified.terms.limit_micro by {
                if a != pi {
                    assert(oldp[a] == ps[a]);
                }
            }
            assert forall|a: int| 0 <= a < ps.len() implies (#[trigger] ps[a]).1.verified.terms.issued_height
                <= ps[a].1.verified.terms.valid_through_height by {
                if a != pi {
                    assert(oldp[a] == ps[a]);
                } else {
                    assert(oldp[a].1.verified == ps[a].1.verified);
                }
            }
            assert forall|a: int| 0 <= a < ps.len() implies self.account(
                (#[trigger] ps[a]).1.subject,
            ) is Some by {
                let sub = ps[a].1.subject;
                assert(oldp[a].1.subject == sub);
                assert(before.account(sub) is Some);
                let w = account_index(olds, sub)->Some_0;
                assert(accts[w].0 == sub);
                lemma_account_at(accts, w);
            }
            let is = self.ious@;
            let oldi = before.ious@;
            assert forall|a: int, b: int| 0 <= a < b < is.len() implies !((
            #[trigger] is[a]).permit_id == (#[trigger] is[b]).permit_id && is[a].sequence
                == is[b].sequence) by {
                if b == oldi.len() {
                    if is[a].permit_id == t.permit_id && is[a].sequence == t.sequence {
                        assert(oldi[a] == is[a]);
                    }
                } else {
                    assert(oldi[a] == is[a] && oldi[b] == is[b]);
                }
            }
            if before.books_balanced() {
                lemma_record_books(
                    before,
                    *self,
                    pi as int,
                    ai as int,
                    t.amount_micro,
                    Iou {
                        permit_id: t.permit_id,
                        sequence: t.sequence,
                        subject,
                        digest: iou.digest,
                        payee: t.payee_commitment,
                        remaining: t.amount_micro,
                    },
                );
            }
        }
        Ok(true)
    }
}

impl HumanShareCredit {
    /// The outcome of expiring permit `id` at `canonical_height`.
    pub open spec fn expire_outcome(&self, id: PermitId, canonical_height: u64) -> Result<
        (),
        CreditError,
    > {
        match self.permit(id) {
            None => Err(CreditError::UnknownPermit),
            Some(p) => if p.expired {
                Ok(())
            } else if canonical_height <= p.verified.terms.valid_through_height {
                Err(CreditError::NotExpired)
            } else {
                let acc = self.account(p.subject)->Some_0;
                if acc.unused_authorized < p.verified.terms.limit_micro - p.used {
                    Err(CreditError::Arithmetic)
                } else {
                    Ok(())
                }
            },
        }
    }

    /// Expire a permit, only against canonical height. Debt already
    /// recorded under it survives; its unused allowance is released from
    /// the cap.
    pub fn expire_permit(&mut self, id: &PermitId, canonical_height: u64) -> (r: Result<
        (),
        CreditError,
    >)
        requires
            old(self).wf(),
        ensures
            final(self).wf(),
            r == old(self).expire_outcome(*id, canonical_height),
            r is Err || old(self).permit(*id)->Some_0.expired ==> *final(self) == *old(self),
            r is Ok && !old(self).permit(*id)->Some_0.expired ==> ({
                let pi = permit_index(old(self).permit_seq(), *id)->Some_0;
                let p = old(self).permit_seq()[pi].1;
                let ai = account_index(old(self).account_seq(), p.subject)->Some_0;
                let acc = old(self).account_seq()[ai].1;
                &&& final(self).policy() == old(self).policy()
                &&& final(self).iou_seq() == old(self).iou_seq()
                &&& final(self).permit_seq() == old(self).permit_seq().update(
                    pi,
                    (*id, Permit { expired: true, ..p }),
                )
                &&& final(self).account_seq() == old(self).account_seq().update(
                    ai,
                    (
                        p.subject,
                        Position {
                            unused_authorized: (acc.unused_authorized - (p.verified.terms.limit_micro
                                - p.used)) as u64,
                            ..acc
                        },
                    ),
                )
            }),
            old(self).books_balanced() ==> final(self).books_balanced(),
    {
        let pi = match find_permit(&self.permits, id) {
            Some(k) => k,
            None => {
                return Err(CreditError::UnknownPermit);
            },
        };
        let permit = self.permits[pi].1;
        if permit.expired {
            return Ok(());
        }
        if canonical_height <= permit.verified.terms.valid_through_height {
            return Err(CreditError::NotExpired);
        }
        assert(self.permits@[pi as int].1.used <= self.permits@[pi as int].1.verified.terms.limit_micro);
        let remaining = permit.verified.terms.limit_micro - permit.used;
        let subject = permit.subject;
        assert(self.account(self.permits@[pi as int].1.subject) is Some);
        let ai = match find_account(&self.accounts, &subject) {
            Some(i) => i,
            None => {
                return Err(CreditError::UnknownAccount);
            },
        };
        let unused = match self.accounts[ai].1.unused_authorized.checked_sub(remaining) {
            Some(u) => u,
            None => {
                return Err(CreditError::Arithmetic);
            },
        };
        let ghost before = *self;
        let (key, position) = self.accounts.remove(ai);
        self.accounts.insert(
            ai,
            (
                key,
                Position {
                    cap: position.cap,
                    debt: position.debt,
                    unused_authorized: unused,
                    repayment_remainder: position.repayment_remainder,
                    last_share: position.last_share,
                },
            ),
        );
        self.permits.set(pi, (*id, Permit { expired: true, ..permit }));
        proof {
            let accts = self.accounts@;
            let olds = before.accounts@;
            assert(accts =~= olds.update(ai as int, accts[ai as int]));
            assert forall|a: int, b: int| 0 <= a < b < accts.len() implies (
            #[trigger] accts[a]).0 != (#[trigger] accts[b]).0 by {
                assert(olds[a].0 == accts[a].0 && olds[b].0 == accts[b].0);
            }
            assert forall|a: int| 0 <= a < accts.len() implies position_ok(
                #[trigger] accts[a].1,
            ) by {
                if a != ai {
                    assert(olds[a] == accts[a]);
                } else {
                    assert(position_ok(olds[a].1));
                }
            }
            let ps = self.permits@;
            let oldp = before.permits@;
            assert forall|a: int, b: int| 0 <= a < b < ps.len() implies (#[trigger] ps[a]).0 != (
            #[trigger] ps[b]).0 by {
                assert(oldp[a].0 == ps[a].0 && oldp[b].0 == ps[b].0);
            }
            assert forall|a: int| 0 <= a < ps.len() implies (#[trigger] ps[a]).1.used
                <= ps[a].1.verified.terms.limit_micro by {
                if a != pi {
                    assert(oldp[a] == ps[a]);
                }
            }
            assert forall|a: int| 0 <= a < ps.len() implies (#[trigger] ps[a]).1.verified.terms.issued_height
                <= ps[a].1.verified.terms.valid_through_height by {
                if a != pi {
                    assert(oldp[a] == ps[a]);
                } else {
                    assert(oldp[a].1.verified == ps[a].1.verified);
                }
            }
            assert forall|a: int| 0 <= a < ps.len() implies self.account(
                (#[trigger] ps[a]).1.subject,
            ) is Some by {
                let sub = ps[a].1.subject;
                assert(oldp[a].1.subject == sub);
                assert(before.account(sub) is Some);
                let w = account_index(olds, sub)->Some_0;
                assert(accts[w].0 == sub);
                lemma_account_at(accts, w);
            }
            if before.books_balanced() {
                assert(allowance(before.permits@[pi as int].1) == remaining);
                lemma_expire_books(before, *self, pi as int, ai as int);
            }
        }
        Ok(())
    }
}

/// The repayment a release permits, and the fractional part carried
/// along: the repayment fraction of the release, with the fraction carried
/// from earlier releases.
pub open spec fn permitted_repay(n: u128, ppm: u32, remainder: u128) -> (nat, nat) {
    let fractional = (n % 1_000_000) * ppm + remainder;
    (((n / 1_000_000) * ppm + fractional / 1_000_000) as nat, fractional as nat)
}

/// Allocating `budget` to `subject`'s unpaid IOUs from position `i` on,
/// oldest first: the IOUs after repayment, the repayments, and what is
/// left of the budget.
pub open spec fn allocate(ious: Seq<Iou>, subject: CreditSubject, budget: nat, i: nat) -> (
    Seq<Iou>,
    Seq<CreditRepayment>,
    nat,
)
    decreases ious.len() - i,
{
    if i >= ious.len() || budget == 0 {
        (ious, Seq::empty(), budget)
    } else {
        let iou = ious[i as int];
        if iou.subject != subject || iou.remaining == 0 {
            allocate(ious, subject, budget, i + 1)
        } else {
            let amount: nat = if budget < iou.remaining {
                budget
            } else {
                iou.remaining as nat
            };
            let updated = ious.update(i as int, Iou { remaining: (iou.remaining - amount) as u64, ..iou });
            let rest = allocate(updated, subject, (budget - amount) as nat, i + 1);
            (
                rest.0,
                seq![
                    CreditRepayment {
                        iou_digest: iou.digest,
                        payee_commitment: iou.payee,
                        amount_micro: amount as u64,
                    },
                ] + rest.1,
                rest.2,
            )
        }
    }
}

/// Allocation repays exactly the budget it does not leave over, changes
/// only what remains of each IOU, and never more than remained.
proof fn lemma_allocate(ious: Seq<Iou>, subject: CreditSubject, budget: nat, i: nat)
    ensures
        ({
            let (out, reps, left) = allocate(ious, subject, budget, i);
            &&& repaid_total(reps) + left == budget
            &&& out.len() == ious.len()
            &&& forall|j: int|
                0 <= j < ious.len() ==> (#[trigger] out[j]).permit_id == ious[j].permit_id
                    && out[j].sequence == ious[j].sequence && out[j].subject == ious[j].subject
                    && out[j].digest == ious[j].digest && out[j].payee == ious[j].payee
                    && out[j].remaining <= ious[j].remaining
        }),
    decreases ious.len() - i,
{
    if i >= ious.len() || budget == 0 {
    } else {
        let iou = ious[i as int];
        if iou.subject != subject || iou.remaining == 0 {
            lemma_allocate(ious, subject, budget, i + 1);
        } else {
            let amount: nat = if budget < iou.remaining {
                budget
            } else {
                iou.remaining as nat
            };
            let updated = ious.update(i as int, Iou { remaining: (iou.remaining - amount) as u64, ..iou });
            lemma_allocate(updated, subject, (budget - amount) as nat, i + 1);
            let rest = allocate(updated, subject, (budget - amount) as nat, i + 1);
            let rep = CreditRepayment {
                iou_digest: iou.digest,
                payee_commitment: iou.payee,
                amount_micro: amount as u64,
            };
            assert((seq![rep] + rest.1).drop_first() =~= rest.1);
            assert forall|j: int| 0 <= j < ious.len() implies (#[trigger] rest.0[j]).remaining
                <= ious[j].remaining by {
                assert(rest.0[j].remaining <= updated[j].remaining);
            }
        }
    }
}

proof fn lemma_debt_zero(ious: Seq<Iou>, s: CreditSubject)
    requires
        forall|j: int|
            0 <= j < ious.len() ==> (#[trigger] ious[j]).subject != s || ious[j].remaining == 0,
    ensures
        debt_of(ious, s) == 0,
    decreases ious.len(),
{
    if ious.len() > 0 {
        assert(ious.last() == ious[ious.len() - 1]);
        assert forall|j: int| 0 <= j < ious.drop_last().len() implies (
        #[trigger] ious.drop_last()[j]).subject != s || ious.drop_last()[j].remaining == 0 by {
            assert(ious.drop_last()[j] == ious[j]);
        }
        lemma_debt_zero(ious.drop_last(), s);
    }
}

/// Allocation takes from `subject`'s debt exactly what it spends, leaves
/// every other subject's debt alone, and leaves budget over only once all of
/// `subject`'s IOUs from `i` on are paid off.
proof fn lemma_allocate_debt(ious: Seq<Iou>, subject: CreditSubject, budget: nat, i: nat)
    ensures
        ({
            let (out, reps, left) = allocate(ious, subject, budget, i);
            &&& debt_of(out, subject) + budget == debt_of(ious, subject) + left
            &&& forall|s: CreditSubject| s != subject ==> debt_of(out, s) == debt_of(ious, s)
            &&& forall|j: int| 0 <= j < i && j < ious.len() ==> #[trigger] out[j] == ious[j]
            &&& left > 0 ==> forall|j: int|
                i <= j < ious.len() ==> (#[trigger] out[j]).subject != subject || out[j].remaining
                    == 0
        }),
    decreases ious.len() - i,
{
    lemma_allocate(ious, subject, budget, i);
    if i >= ious.len() || budget == 0 {
    } else {
        let iou = ious[i as int];
        if iou.subject != subject || iou.remaining == 0 {
            lemma_allocate_debt(ious, subject, budget, i + 1);
        } else {
            let amount: nat = if budget < iou.remaining {
                budget
            } else {
                iou.remaining as nat
            };
            let changed = Iou { remaining: (iou.remaining - amount) as u64, ..iou };
            let updated = ious.update(i as int, changed);
            lemma_allocate_debt(updated, subject, (budget - amount) as nat, i + 1);
            lemma_allocate(updated, subject, (budget - amount) as nat, i + 1);
            lemma_debt_update(ious, i as int, changed, subject);
            assert forall|s: CreditSubject| s != subject implies debt_of(updated, s) == debt_of(
                ious,
                s,
            ) by {
                lemma_debt_update(ious, i as int, changed, s);
            }
            let (out, reps, left) = allocate(updated, subject, (budget - amount) as nat, i + 1);
            assert forall|j: int| 0 <= j < i && j < ious.len() implies #[trigger] out[j]
                == ious[j] by {
                assert(out[j] == updated[j]);
            }
            if left > 0 {
                assert forall|j: int| i <= j < ious.len() implies (#[trigger] out[j]).subject
                    != subject || out[j].remaining == 0 by {
                    if j == i {
                        assert(out[j] == updated[j]);
                    }
                }
            }
        }
    }
}

/// On balanced books a release never runs short: whatever part of the
/// debt it repays, the subject's IOUs still owe at least that much.
pub proof fn lemma_release_no_shortfall(c: HumanShareCredit, subject: CreditSubject, repay: nat)
    requires
        c.wf(),
        c.books_balanced(),
        c.account(subject) is Some,
        repay <= c.account(subject)->Some_0.debt,
    ensures
        allocate(c.iou_seq(), subject, repay, 0).2 == 0,
{
    let ai = account_index(c.account_seq(), subject)->Some_0;
    assert(c.account_seq()[ai].1.debt == debt_of(c.iou_seq(), c.account_seq()[ai].0));
    lemma_allocate_debt(c.iou_seq(), subject, repay, 0);
    let (out, reps, left) = allocate(c.iou_seq(), subject, repay, 0);
    if left > 0 {
        lemma_allocate(c.iou_seq(), subject, repay, 0);
        lemma_debt_zero(out, subject);
    }
}

/// Repaying from a release keeps the books: the subject's debt falls by
/// what its IOUs were repaid.
proof fn lemma_release_books(
    before: HumanShareCredit,
    after: HumanShareCredit,
    ai: int,
    subject: CreditSubject,
    repay: nat,
)
    requires
        before.wf(),
        before.books_balanced(),
        keys_unique(after.account_seq()),
        0 <= ai < before.account_seq().len(),
        before.account_seq()[ai].0 == subject,
        repay <= before.account_seq()[ai].1.debt,
        allocate(before.iou_seq(), subject, repay, 0).2 == 0,
        after.iou_seq() == allocate(before.iou_seq(), subject, repay, 0).0,
        after.permit_seq() == before.permit_seq(),
        after.account_seq().len() == before.account_seq().len(),
        forall|k: int|
            0 <= k < before.account_seq().len() && k != ai ==> (#[trigger] after.account_seq()[k])
                == before.account_seq()[k],
        after.account_seq()[ai].0 == subject,
        after.account_seq()[ai].1.debt == before.account_seq()[ai].1.debt - repay,
        after.account_seq()[ai].1.unused_authorized == before.account_seq()[ai].1.unused_authorized,
    ensures
        after.books_balanced(),
{
    let olds = before.account_seq();
    let news = after.account_seq();
    lemma_allocate_debt(before.iou_seq(), subject, repay, 0);
    lemma_allocate(before.iou_seq(), subject, repay, 0);
    assert forall|k: int| 0 <= k < news.len() implies (#[trigger] news[k]).1.debt == debt_of(
        after.iou_seq(),
        news[k].0,
    ) && news[k].1.unused_authorized == unused_of(after.permit_seq(), news[k].0) by {
        assert(olds[k].1.debt == debt_of(before.iou_seq(), olds[k].0));
        assert(olds[k].1.unused_authorized == unused_of(before.permit_seq(), olds[k].0));
        if k != ai {
            assert(news[k] == olds[k]);
            assert(olds[k].0 != olds[ai].0);
        }
    }
    assert forall|k: int| 0 <= k < news.len() implies (#[trigger] news[k]).0 == olds[k].0 by {
        if k != ai {
            assert(news[k] == olds[k]);
        }
    }
    assert forall|j: int| 0 <= j < after.iou_seq().len() implies after.account(
        (#[trigger] after.iou_seq()[j]).subject,
    ) is Some by {
        assert(after.iou_seq()[j].subject == before.iou_seq()[j].subject);
        lemma_keys_kept(before, after, after.iou_seq()[j].subject);
    }
}

fn copy_split(s: &ShareRepayment) -> (c: ShareRepayment)
    ensures
        c@ == s@,
{
    let mut repayments: Vec<CreditRepayment> = Vec::new();
    let mut i: usize = 0;
    while i < s.repayments.len()
        invariant
            i <= s.repayments@.len(),
            repayments@ == s.repayments@.subrange(0, i as int),
        decreases s.repayments@.len() - i,
    {
        repayments.push(s.repayments[i]);
        i = i + 1;
        assert(repayments@ =~= s.repayments@.subrange(0, i as int));
    }
    assert(repayments@ =~= s.repayments@);
    ShareRepayment {
        gross_released: s.gross_released,
        recipient_available: s.recipient_available,
        remaining_debt_micro: s.remaining_debt_micro,
        repayments,
    }
}

impl HumanShareCredit {
    /// Repay the oldest canonically accepted IOUs from actually released
    /// share. Returns the split and whether it was newly applied; an exact
    /// replay returns the same split and transfers nothing twice.
    pub fn release_share(&mut self, subject: &CreditSubject, release_epoch: u64, gross: Amount) -> (r:
        Result<(ShareRepayment, bool), CreditError>)
        requires
            old(self).wf(),
        ensures
            final(self).wf(),
            old(self).account(*subject) is None ==> r == Err::<(ShareRepayment, bool), CreditError>(
                CreditError::UnknownAccount,
            ),
            r matches Ok((s, _)) ==> split_balanced(s@) && s@.gross_released == gross.micro(),
            r matches Ok((_, false)) || r is Err ==> *final(self) == *old(self),
            old(self).account(*subject) matches Some(acc) ==> ({
                let n = gross.micro();
                let (permitted, fractional) = permitted_repay(
                    n,
                    old(self).policy().repayment_ppm,
                    acc.repayment_remainder,
                );
                let repay: nat = if permitted < acc.debt {
                    permitted
                } else {
                    acc.debt as nat
                };
                let (ious, reps, left) = allocate(old(self).iou_seq(), *subject, repay, 0);
                let ai = account_index(old(self).account_seq(), *subject)->Some_0;
                match acc.last_share {
                    Some((last, prior)) if release_epoch == last => if n == prior@.gross_released {
                        r matches Ok((s, applied)) && !applied && s@ == prior@
                    } else {
                        r == Err::<(ShareRepayment, bool), CreditError>(
                            CreditError::ReplayMismatch,
                        )
                    },
                    Some((last, _)) if release_epoch < last => r == Err::<
                        (ShareRepayment, bool),
                        CreditError,
                    >(CreditError::InvalidEpoch),
                    _ => if left != 0 {
                        r == Err::<(ShareRepayment, bool), CreditError>(CreditError::Arithmetic)
                    } else {
                        &&& r matches Ok((s, applied)) && applied && s@ == (ShareRepaymentView {
                            gross_released: n,
                            recipient_available: (n - repay) as u128,
                            remaining_debt_micro: (acc.debt - repay) as u64,
                            repayments: reps,
                        })
                        &&& final(self).policy() == old(self).policy()
                        &&& final(self).permit_seq() == old(self).permit_seq()
                        &&& final(self).iou_seq() == ious
                        &&& final(self).account_seq().len() == old(self).account_seq().len()
                        &&& forall|j: int|
                            0 <= j < old(self).account_seq().len() && j != ai ==> (
                            #[trigger] final(self).account_seq()[j]) == old(self).account_seq()[j]
                        &&& final(self).account_seq()[ai].0 == *subject
                        &&& ({
                            let p = final(self).account_seq()[ai].1;
                            &&& p.cap == acc.cap
                            &&& p.unused_authorized == acc.unused_authorized
                            &&& p.debt == acc.debt - repay
                            &&& p.repayment_remainder == if acc.debt - repay == 0 {
                                0
                            } else {
                                fractional % 1_000_000
                            }
                            &&& p.last_share matches Some((e, s)) && e == release_epoch && s@
                                == (ShareRepaymentView {
                                gross_released: n,
                                recipient_available: (n - repay) as u128,
                                remaining_debt_micro: (acc.debt - repay) as u64,
                                repayments: reps,
                            })
                        })
                    },
                }
            }),
            old(self).books_balanced() ==> final(self).books_balanced(),
            old(self).books_balanced() ==> r != Err::<(ShareRepayment, bool), CreditError>(
                CreditError::Arithmetic,
            ),
    {
        let ai = match find_account(&self.accounts, subject) {
            Some(i) => i,
            None => {
                return Err(CreditError::UnknownAccount);
            },
        };
        assert(position_ok(self.accounts@[ai as int].1));
        match &self.accounts[ai].1.last_share {
            Some((last, split)) => {
                if release_epoch == *last {
                    if gross.as_micro() == split.gross_released.as_micro() {
                        return Ok((copy_split(split), false));
                    } else {
                        return Err(CreditError::ReplayMismatch);
                    }
                }
                if release_epoch < *last {
                    return Err(CreditError::InvalidEpoch);
                }
            },
            None => {},
        }
        let n = gross.as_micro();
        let ppm = self.policy.repayment_ppm as u128;
        let debt = self.accounts[ai].1.debt;
        let remainder = self.accounts[ai].1.repayment_remainder;
        assert(ppm <= 1_000_000 && remainder < 1_000_000);
        assert((n % 1_000_000) * ppm <= 999_999 * 1_000_000) by (nonlinear_arith)
            requires
                ppm <= 1_000_000,
        ;
        let fractional = (n % 1_000_000) * ppm + remainder;
        assert((n / 1_000_000) * ppm + fractional / 1_000_000 <= n) by (nonlinear_arith)
            requires
                ppm <= 1_000_000,
                remainder < 1_000_000,
                fractional == (n % 1_000_000) * ppm + remainder,
        ;
        let permitted = (n / 1_000_000) * ppm + fractional / 1_000_000;
        let repay: u64 = if permitted < debt as u128 {
            permitted as u64
        } else {
            debt
        };
        let remaining_debt = debt - repay;
        let ghost original = self.ious@;
        let ghost target = allocate(original, *subject, repay as nat, 0);
        proof {
            lemma_allocate(original, *subject, repay as nat, 0);
        }
        let mut staged: Vec<Iou> = Vec::new();
        let mut k: usize = 0;
        while k < self.ious.len()
            invariant
                k <= self.ious@.len(),
                staged@ == self.ious@.subrange(0, k as int),
            decreases self.ious@.len() - k,
        {
            staged.push(self.ious[k]);
            k = k + 1;
            assert(staged@ =~= self.ious@.subrange(0, k as int));
        }
        assert(staged@ =~= original);
        let mut budget = repay;
        let mut repayments: Vec<CreditRepayment> = Vec::new();
        let mut i: usize = 0;
        while i < staged.len() && budget > 0
            invariant
                i <= staged@.len(),
                staged@.len() == original.len(),
                allocate(staged@, *subject, budget as nat, i as nat).0 == target.0,
                repayments@ + allocate(staged@, *subject, budget as nat, i as nat).1 == target.1,
                allocate(staged@, *subject, budget as nat, i as nat).2 == target.2,
            decreases staged@.len() - i,
        {
            let iou = staged[i];
            if same32(&iou.subject, subject) && iou.remaining != 0 {
                let amount = if budget < iou.remaining {
                    budget
                } else {
                    iou.remaining
                };
                let ghost before = staged@;
                let ghost rest = allocate(
                    before.update(i as int, Iou { remaining: (iou.remaining - amount) as u64, ..iou }),
                    *subject,
                    (budget - amount) as nat,
                    (i + 1) as nat,
                );
                staged.set(i, Iou { remaining: iou.remaining - amount, ..iou });
                let rep = CreditRepayment {
                    iou_digest: iou.digest,
                    payee_commitment: iou.payee,
                    amount_micro: amount,
                };
                let ghost prior = repayments@;
                repayments.push(rep);
                budget = budget - amount;
                proof {
                    assert(staged@ == before.update(i as int, Iou { remaining: (iou.remaining - amount) as u64, ..iou }));
                    assert(allocate(before, *subject, (budget + amount) as nat, i as nat).1 == seq![rep] + rest.1);
                    assert(prior + (seq![rep] + rest.1) =~= repayments@ + rest.1);
                }
            }
            i = i + 1;
        }
        proof {
            if old(self).books_balanced() {
                lemma_release_no_shortfall(*old(self), *subject, repay as nat);
            }
        }
        if budget != 0 {
            return Err(CreditError::Arithmetic);
        }
        proof {
            assert(repayments@ + Seq::<CreditRepayment>::empty() =~= repayments@);
        }
        let split = ShareRepayment {
            gross_released: gross,
            recipient_available: Amount::from_micro(n - repay as u128),
            remaining_debt_micro: remaining_debt,
            repayments,
        };
        let stored = copy_split(&split);
        let ghost before = *self;
        let (key, position) = self.accounts.remove(ai);
        self.accounts.insert(
            ai,
            (
                key,
                Position {
                    cap: position.cap,
                    debt: remaining_debt,
                    unused_authorized: position.unused_authorized,
                    repayment_remainder: if remaining_debt == 0 {
                        0
                    } else {
                        fractional % 1_000_000
                    },
                    last_share: Some((release_epoch, stored)),
                },
            ),
        );
        self.ious = staged;
        proof {
            let accts = self.accounts@;
            let olds = before.accounts@;
            assert(accts.len() == olds.len());
            assert forall|a: int| 0 <= a < olds.len() && a != ai implies (#[trigger] accts[a])
                == olds[a] by {
                assert(accts =~= olds.update(ai as int, accts[ai as int]));
            }
            assert(accts =~= olds.update(ai as int, accts[ai as int]));
            assert forall|a: int, b: int| 0 <= a < b < accts.len() implies (
            #[trigger] accts[a]).0 != (#[trigger] accts[b]).0 by {
                assert(olds[a].0 == accts[a].0 && olds[b].0 == accts[b].0);
            }
            assert forall|a: int| 0 <= a < accts.len() implies position_ok(
                #[trigger] accts[a].1,
            ) by {
                if a != ai {
                    assert(olds[a] == accts[a]);
                }
            }
            let ps = self.permits@;
            assert forall|a: int| 0 <= a < ps.len() implies self.account(
                (#[trigger] ps[a]).1.subject,
            ) is Some by {
                let sub = ps[a].1.subject;
                assert(before.account(sub) is Some);
                let w = account_index(olds, sub)->Some_0;
                assert(accts[w].0 == sub);
                lemma_account_at(accts, w);
            }
            let is = self.ious@;
            assert forall|a: int, b: int| 0 <= a < b < is.len() implies !((
            #[trigger] is[a]).permit_id == (#[trigger] is[b]).permit_id && is[a].sequence
                == is[b].sequence) by {
                assert(is[a].permit_id == original[a].permit_id && is[a].sequence == original[a].sequence);
                assert(is[b].permit_id == original[b].permit_id && is[b].sequence == original[b].sequence);
            }
            if before.books_balanced() {
                lemma_release_no_shortfall(before, *subject, repay as nat);
                lemma_release_books(before, *self, ai as int, *subject, repay as nat);
            }
        }
        Ok((split, true))
    }
}

} // verus!
