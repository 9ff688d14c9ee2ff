//! The commit protocol as a state machine over mathematical values.
//!
//! A transaction is opened, gathers staged changes, and is committed in
//! steps. Each step that touches a file is a request to the caller; the
//! caller performs it and reports the result, which selects the next
//! step. Stored entities grow first, then each touched bank gets its new
//! manifest through a temporary file and one rename, and releases are
//! applied last, and only if every bank was renamed.

use vstd::prelude::*;
use crate::bank::{edit_refusal, edited, lemma_edited_wf, BankView, SlotEdit};
use crate::bank_manager::{loaded, referred, refers, ManifestsView};
use crate::digest::Reference;
use crate::entity_store::{
    after_adopt, after_hold, after_put, after_release, after_sweep, content_addressed,
    lemma_put_keeps_content_addressed, reference_spec, StoreView,
};
use crate::error::{Cause, IoFailure};
use crate::manifest::{decode, encode, lemma_decode_encode};

verus! {

/// Where the coordinator stands.
#[derive(Debug, Clone, Copy, PartialEq, Eq, Structural)]
pub enum Phase {
    /// No transaction is open.
    Idle,
    /// A transaction is open and takes staged changes.
    Open,
    /// The open transaction is being committed.
    Committing,
}

/// The request whose result the coordinator waits for.
#[derive(Debug, Clone, Copy, PartialEq, Eq, Structural)]
pub enum Pending {
    Nothing,
    /// An entity is being written under its reference.
    BlobWrite,
    /// A bank's new manifest is being written to its temporary path.
    TempWrite,
    /// The temporary file is being renamed over the live manifest.
    Rename,
    /// The temporary file of a bank that failed is being deleted.
    TempRemoval,
}

/// How a request ended, as the caller reports it.
#[derive(Debug, Clone, Copy, PartialEq, Eq, Structural)]
pub enum IoResult {
    Done,
    Failed(IoFailure),
}

/// A bank as staged in a transaction.
#[verifier::ext_equal]
pub struct StagedBankView {
    pub name: Seq<char>,
    pub bank: BankView,
}

/// A bank that a commit left out, and why.
pub struct FailureView {
    pub bank: Seq<char>,
    pub cause: Cause,
}

/// How a commit ended.
pub enum OutcomeView {
    /// Every payload was stored and every touched bank was renamed, in
    /// this order; the releases were applied.
    Committed { banks: Seq<Seq<char>> },
    /// Every payload was stored. Some banks were renamed and stand; the
    /// others were left as they were.
    PartialCommit { committed: Seq<Seq<char>>, failed: Seq<FailureView> },
    /// The payload of this reference could not be stored. No bank was
    /// renamed, and every bank of the transaction was left as it was.
    EntityWriteFailed { reference: Reference, failure: IoFailure, left_out: Seq<FailureView> },
}

/// What the coordinator asks of the caller.
pub enum RequestView {
    WriteBlob { reference: Reference, payload: Seq<u8> },
    WriteTemp { bank: Seq<char>, bytes: Seq<u8> },
    Rename { bank: Seq<char> },
    RemoveTemp { bank: Seq<char> },
    Finish(OutcomeView),
}

/// The coordinator as a mathematical value.
#[verifier::ext_equal]
pub struct State {
    /// The stored entities: what a reader finds.
    pub blobs: StoreView,
    /// The live manifests: what a reader finds.
    pub manifests: ManifestsView,
    pub phase: Phase,
    /// Payloads put in the transaction and not yet stored, oldest first.
    pub puts: Seq<Seq<u8>>,
    /// References released in the transaction.
    pub releases: Seq<Reference>,
    /// Banks touched in the transaction and not yet dealt with, in the
    /// order in which they were first touched.
    pub banks: Seq<StagedBankView>,
    pub pending: Pending,
    /// Whether the caller asked to skip the banks not yet begun.
    pub aborted: bool,
    /// Banks renamed in this commit.
    pub committed: Seq<Seq<char>>,
    /// Banks left out in this commit.
    pub failed: Seq<FailureView>,
}

/// Every reference that a live manifest names is held by the store.
pub open spec fn no_dangling(blobs: StoreView, manifests: ManifestsView) -> bool {
    forall|name: Seq<char>, r: Reference| #[trigger]
        refers(manifests, name, r) ==> blobs.contains_key(r)
}

/// Every reference that the bank names is held by the store.
pub open spec fn resolves(blobs: StoreView, bank: BankView) -> bool {
    forall|r: Reference| #[trigger] bank.names(r) ==> blobs.contains_key(r)
}

/// The first reference among `slots` that the store does not hold.
pub open spec fn first_dangling(blobs: StoreView, slots: Seq<Option<Reference>>) -> Option<
    Reference,
>
    decreases slots.len(),
{
    if slots.len() == 0 {
        None
    } else {
        match slots[0] {
            Some(r) => if blobs.contains_key(r) {
                first_dangling(blobs, slots.skip(1))
            } else {
                Some(r)
            },
            None => first_dangling(blobs, slots.skip(1)),
        }
    }
}

/// The store after the releases are applied, oldest first.
pub open spec fn apply_releases(blobs: StoreView, releases: Seq<Reference>) -> StoreView
    decreases releases.len(),
{
    if releases.len() == 0 {
        blobs
    } else {
        apply_releases(after_release(blobs, releases[0]), releases.skip(1))
    }
}

/// Each of the banks, left out for the same cause.
pub open spec fn fail_all(banks: Seq<StagedBankView>, cause: Cause) -> Seq<FailureView> {
    Seq::new(banks.len(), |i: int| FailureView { bank: banks[i].name, cause })
}

/// The end of a commit in which every payload was stored. Releases are
/// applied if no bank was left out; the transaction is over either way.
pub open spec fn finish(s: State) -> (State, RequestView) {
    let clean = s.failed.len() == 0;
    (
        State {
            blobs: if clean {
                apply_releases(s.blobs, s.releases)
            } else {
                s.blobs
            },
            manifests: s.manifests,
            phase: Phase::Idle,
            puts: Seq::empty(),
            releases: Seq::empty(),
            banks: Seq::empty(),
            pending: Pending::Nothing,
            aborted: false,
            committed: Seq::empty(),
            failed: Seq::empty(),
        },
        RequestView::Finish(
            if clean {
                OutcomeView::Committed { banks: s.committed }
            } else {
                OutcomeView::PartialCommit { committed: s.committed, failed: s.failed }
            },
        ),
    )
}

/// Goes on until a file has to be touched, and says which request that
/// is. A payload whose reference is held already only gains a use. A bank
/// is left out, without any request, if the caller asked to stop or if it
/// names an entity that the store does not hold.
pub open spec fn settle(s: State) -> (State, RequestView)
    decreases s.puts.len() + s.banks.len(),
{
    if s.puts.len() > 0 {
        let payload = s.puts[0];
        if s.blobs.contains_key(reference_spec(payload)) {
            settle(State { blobs: after_put(s.blobs, payload), puts: s.puts.skip(1), ..s })
        } else {
            (
                State { pending: Pending::BlobWrite, ..s },
                RequestView::WriteBlob { reference: reference_spec(payload), payload },
            )
        }
    } else if s.banks.len() > 0 {
        let head = s.banks[0];
        if s.aborted {
            settle(
                State {
                    banks: s.banks.skip(1),
                    failed: s.failed.push(FailureView { bank: head.name, cause: Cause::Aborted }),
                    ..s
                },
            )
        } else {
            match first_dangling(s.blobs, head.bank.slots) {
                Some(r) => settle(
                    State {
                        banks: s.banks.skip(1),
                        failed: s.failed.push(
                            FailureView { bank: head.name, cause: Cause::Dangling(r) },
                        ),
                        ..s
                    },
                ),
                None => (
                    State { pending: Pending::TempWrite, ..s },
                    RequestView::WriteTemp { bank: head.name, bytes: encode(head.bank) },
                ),
            }
        }
    } else {
        finish(s)
    }
}

/// The beginning of a commit.
pub open spec fn begin(s: State) -> (State, RequestView) {
    settle(State { phase: Phase::Committing, ..s })
}

/// The step that the result of the pending request selects. A payload
/// that could not be written ends the commit at once: nothing more is
/// stored, no bank is renamed, and no release is applied.
pub open spec fn advance(s: State, result: IoResult) -> (State, RequestView) {
    match s.pending {
        Pending::Nothing => (s, RequestView::Finish(OutcomeView::Committed { banks: Seq::empty() })),
        Pending::BlobWrite => match result {
            IoResult::Done => settle(
                State {
                    blobs: after_put(s.blobs, s.puts[0]),
                    puts: s.puts.skip(1),
                    pending: Pending::Nothing,
                    ..s
                },
            ),
            IoResult::Failed(f) => (
                without_transaction(s),
                RequestView::Finish(
                    OutcomeView::EntityWriteFailed {
                        reference: reference_spec(s.puts[0]),
                        failure: f,
                        left_out: fail_all(
                            s.banks,
                            Cause::EntityWrite { reference: reference_spec(s.puts[0]), failure: f },
                        ),
                    },
                ),
            ),
        },
        Pending::TempWrite => match result {
            IoResult::Done => (
                State { pending: Pending::Rename, ..s },
                RequestView::Rename { bank: s.banks[0].name },
            ),
            IoResult::Failed(f) => (
                State {
                    pending: Pending::TempRemoval,
                    failed: s.failed.push(
                        FailureView { bank: s.banks[0].name, cause: Cause::TempWrite(f) },
                    ),
                    ..s
                },
                RequestView::RemoveTemp { bank: s.banks[0].name },
            ),
        },
        Pending::Rename => match result {
            IoResult::Done => settle(
                State {
                    manifests: s.manifests.insert(s.banks[0].name, encode(s.banks[0].bank)),
                    committed: s.committed.push(s.banks[0].name),
                    banks: s.banks.skip(1),
                    pending: Pending::Nothing,
                    ..s
                },
            ),
            IoResult::Failed(f) => (
                State {
                    pending: Pending::TempRemoval,
                    failed: s.failed.push(
                        FailureView { bank: s.banks[0].name, cause: Cause::Rename(f) },
                    ),
                    ..s
                },
                RequestView::RemoveTemp { bank: s.banks[0].name },
            ),
        },
        Pending::TempRemoval => settle(
            State { banks: s.banks.skip(1), pending: Pending::Nothing, ..s },
        ),
    }
}

/// The state with the transaction gone, and all that it had staged: what
/// a rollback leaves, and what a restart finds after the process was
/// killed. The stored entities and the live manifests are as they were.
pub open spec fn without_transaction(s: State) -> State {
    State {
        blobs: s.blobs,
        manifests: s.manifests,
        phase: Phase::Idle,
        puts: Seq::empty(),
        releases: Seq::empty(),
        banks: Seq::empty(),
        pending: Pending::Nothing,
        aborted: false,
        committed: Seq::empty(),
        failed: Seq::empty(),
    }
}

/// The number of banks of the transaction that is being committed: those
/// renamed, those left out, and those still to come. The bank whose
/// temporary file is being deleted is among those left out already.
pub open spec fn tally(s: State) -> int {
    s.committed.len() + s.failed.len() + s.banks.len() - if s.pending == Pending::TempRemoval {
        1int
    } else {
        0int
    }
}

/// Whether a step accounts for every bank: while the commit goes on, no
/// bank is lost or added; when it is over, the outcome lists each bank as
/// renamed or as left out.
pub open spec fn accounted(s: State, step: (State, RequestView)) -> bool {
    match step.1 {
        RequestView::Finish(OutcomeView::Committed { banks }) => banks.len() == tally(s),
        RequestView::Finish(OutcomeView::PartialCommit { committed, failed }) => committed.len()
            + failed.len() == tally(s) && failed.len() > 0,
        RequestView::Finish(OutcomeView::EntityWriteFailed { left_out, .. }) => left_out.len()
            == tally(s),
        _ => tally(step.0) == tally(s),
    }
}

/// Whether `after` holds every reference that `before` holds, with the
/// same payload: what is stored is neither dropped nor changed.
pub open spec fn keeps(before: StoreView, after: StoreView) -> bool {
    forall|r: Reference| #[trigger]
        before.contains_key(r) ==> after.contains_key(r) && after[r].payload == before[r].payload
}

/// A bound on the requests that a commit still makes: one for each
/// payload to be stored, and three for each bank to come, less what the
/// bank in progress has behind it.
pub open spec fn steps_left(s: State) -> int {
    s.puts.len() + 3 * s.banks.len() - match s.pending {
        Pending::Rename => 1int,
        Pending::TempRemoval => 2int,
        _ => 0int,
    }
}

/// Every staged bank has a shape within limits.
pub open spec fn banks_wf(banks: Seq<StagedBankView>) -> bool {
    forall|i: int| 0 <= i < banks.len() ==> (#[trigger] banks[i]).bank.wf()
}

/// What holds of the coordinator between any two calls.
pub open spec fn consistent(s: State) -> bool {
    &&& content_addressed(s.blobs)
    &&& no_dangling(s.blobs, s.manifests)
    &&& banks_wf(s.banks)
    &&& match s.phase {
        Phase::Idle => s.puts.len() == 0 && s.releases.len() == 0 && s.banks.len() == 0
            && s.pending == Pending::Nothing && !s.aborted && s.committed.len() == 0
            && s.failed.len() == 0,
        Phase::Open => s.pending == Pending::Nothing && !s.aborted && s.committed.len() == 0
            && s.failed.len() == 0,
        Phase::Committing => match s.pending {
            Pending::Nothing => false,
            Pending::BlobWrite => s.puts.len() > 0 && !s.blobs.contains_key(
                reference_spec(s.puts[0]),
            ) && s.committed.len() == 0 && s.failed.len() == 0,
            Pending::TempWrite | Pending::Rename => s.puts.len() == 0 && s.banks.len() > 0
                && resolves(s.blobs, s.banks[0].bank),
            Pending::TempRemoval => s.puts.len() == 0 && s.banks.len() > 0,
        },
    }
}

/// What holds where `settle` takes over: a commit is under way and no
/// request is pending.
pub open spec fn settling(s: State) -> bool {
    &&& content_addressed(s.blobs)
    &&& no_dangling(s.blobs, s.manifests)
    &&& banks_wf(s.banks)
    &&& s.phase == Phase::Committing
    &&& s.pending == Pending::Nothing
    &&& s.puts.len() > 0 ==> s.committed.len() == 0 && s.failed.len() == 0
}

/// No reference is found dangling exactly if the store holds every
/// reference among the slots; one that is found is among the slots and
/// not held.
pub proof fn lemma_first_dangling(blobs: StoreView, slots: Seq<Option<Reference>>)
    ensures
        match first_dangling(blobs, slots) {
            Some(r) => slots.contains(Some(r)) && !blobs.contains_key(r),
            None => forall|r: Reference| slots.contains(Some(r)) ==> blobs.contains_key(r),
        },
    decreases slots.len(),
{
    if slots.len() > 0 {
        let rest = slots.skip(1);
        lemma_first_dangling(blobs, rest);
        match first_dangling(blobs, slots) {
            Some(r) => {
                if first_dangling(blobs, rest) == Some(r) && rest.contains(Some(r)) {
                    let k = choose|k: int| 0 <= k < rest.len() && rest[k] == Some(r);
                    assert(slots[k + 1] == Some(r));
                } else {
                    assert(slots[0] == Some(r));
                }
            },
            None => {
                assert forall|r: Reference| slots.contains(Some(r)) implies blobs.contains_key(
                    r,
                ) by {
                    let k = choose|k: int| 0 <= k < slots.len() && slots[k] == Some(r);
                    if k > 0 {
                        assert(rest[k - 1] == Some(r));
                    }
                }
            },
        }
    }
}

/// Releases delete nothing.
pub proof fn lemma_releases_keep_domain(blobs: StoreView, releases: Seq<Reference>)
    ensures
        apply_releases(blobs, releases).dom() == blobs.dom(),
    decreases releases.len(),
{
    if releases.len() > 0 {
        assert(after_release(blobs, releases[0]).dom() =~= blobs.dom());
        lemma_releases_keep_domain(after_release(blobs, releases[0]), releases.skip(1));
    }
}

/// Releases change no payload.
pub proof fn lemma_releases_keep_payloads(blobs: StoreView, releases: Seq<Reference>)
    ensures
        keeps(blobs, apply_releases(blobs, releases)),
    decreases releases.len(),
{
    if releases.len() > 0 {
        let next = after_release(blobs, releases[0]);
        lemma_releases_keep_payloads(next, releases.skip(1));
        assert forall|r: Reference| #[trigger] blobs.contains_key(r) implies apply_releases(
            blobs,
            releases,
        ).contains_key(r) && apply_releases(blobs, releases)[r].payload == blobs[r].payload by {
            assert(next.contains_key(r));
        }
    }
}

/// Releases leave every payload under its own digest.
pub proof fn lemma_releases_keep_content_addressed(blobs: StoreView, releases: Seq<Reference>)
    requires
        content_addressed(blobs),
    ensures
        content_addressed(apply_releases(blobs, releases)),
{
    lemma_releases_keep_domain(blobs, releases);
    lemma_releases_keep_payloads(blobs, releases);
    let after = apply_releases(blobs, releases);
    assert forall|r: Reference| #[trigger] after.contains_key(r) implies r == reference_spec(
        after[r].payload,
    ) by {
        assert(blobs.dom().contains(r));
        assert(blobs.contains_key(r));
    }
}

/// Whether the payload is stored: its reference is held.
pub open spec fn stored(blobs: StoreView, payload: Seq<u8>) -> bool {
    blobs.contains_key(reference_spec(payload))
}

/// Whether `r` is the reference of one of the first `k` payloads.
pub open spec fn among(puts: Seq<Seq<u8>>, k: int, r: Reference) -> bool {
    exists|i: int| 0 <= i < k && i < puts.len() && reference_spec(#[trigger] puts[i]) == r
}

/// How many payloads of the transaction staged in `start` the commit has
/// behind it in `s`.
pub open spec fn dealt(start: State, s: State) -> int {
    start.puts.len() - s.puts.len()
}

/// Whether `s` is a point in the commit of the transaction staged in
/// `start`: the payloads still to come are the last of those staged; those
/// before them are stored; what was stored before is stored unchanged; and
/// nothing else is stored.
pub open spec fn on_course(start: State, s: State) -> bool {
    let k = dealt(start, s);
    &&& 0 <= k <= start.puts.len()
    &&& s.puts == start.puts.skip(k)
    &&& keeps(start.blobs, s.blobs)
    &&& forall|i: int| 0 <= i < k ==> stored(s.blobs, #[trigger] start.puts[i])
    &&& forall|r: Reference| #[trigger]
        s.blobs.contains_key(r) ==> start.blobs.contains_key(r) || among(start.puts, k, r)
}

/// What the store holds after the transaction staged in `start` was
/// committed: what it held before, unchanged; every payload staged; and
/// nothing else.
pub open spec fn stored_all(start: State, end: State) -> bool {
    &&& keeps(start.blobs, end.blobs)
    &&& forall|i: int| 0 <= i < start.puts.len() ==> stored(end.blobs, #[trigger] start.puts[i])
    &&& forall|r: Reference| #[trigger]
        end.blobs.contains_key(r) ==> start.blobs.contains_key(r) || among(
            start.puts,
            start.puts.len() as int,
            r,
        )
}

/// Whether the request ends a commit as `Committed`.
pub open spec fn ends_committed(request: RequestView) -> bool {
    request matches RequestView::Finish(OutcomeView::Committed { .. })
}

/// What holds after any step of the commit of the transaction staged in
/// `start`: while the commit goes on it is on course; if it is over and
/// ended as `Committed`, everything staged is stored.
pub open spec fn on_course_step(start: State, step: (State, RequestView)) -> bool {
    &&& consistent(step.0)
    &&& keeps(start.blobs, step.0.blobs)
    &&& match step.1 {
        RequestView::Finish(OutcomeView::Committed { .. }) => stored_all(start, step.0),
        RequestView::Finish(_) => true,
        _ => step.0.phase == Phase::Committing && on_course(start, step.0),
    }
}

/// Where the commit of the transaction staged in `start` stands after the
/// caller has reported these results, one for each request. Results
/// reported after the end change nothing.
pub open spec fn commit_run(start: State, results: Seq<IoResult>) -> (State, RequestView)
    decreases results.len(),
{
    if results.len() == 0 {
        begin(start)
    } else {
        let before = commit_run(start, results.drop_last());
        if before.1 is Finish {
            before
        } else {
            advance(before.0, results.last())
        }
    }
}

proof fn lemma_keeps_transitive(a: StoreView, b: StoreView, c: StoreView)
    requires
        keeps(a, b),
        keeps(b, c),
    ensures
        keeps(a, c),
{
    assert forall|r: Reference| #[trigger] a.contains_key(r) implies c.contains_key(r)
        && c[r].payload == a[r].payload by {
        assert(b.contains_key(r));
    }
}

/// Putting the next payload keeps the commit on course.
proof fn lemma_put_on_course(start: State, s: State, next: State)
    requires
        on_course(start, s),
        s.puts.len() > 0,
        next.blobs == after_put(s.blobs, s.puts[0]),
        next.puts == s.puts.skip(1),
    ensures
        on_course(start, next),
        keeps(s.blobs, next.blobs),
{
    let k = dealt(start, s);
    assert(s.puts[0] == start.puts[k]);
    assert(next.puts =~= start.puts.skip(k + 1));
    assert(keeps(s.blobs, next.blobs));
    lemma_keeps_transitive(start.blobs, s.blobs, next.blobs);
    assert forall|i: int| 0 <= i < k + 1 implies stored(next.blobs, #[trigger] start.puts[i]) by {
        if i < k {
            assert(stored(s.blobs, start.puts[i]));
        }
    }
    assert forall|r: Reference| #[trigger] next.blobs.contains_key(r) implies start.blobs.contains_key(
        r,
    ) || among(start.puts, k + 1, r) by {
        if r == reference_spec(s.puts[0]) {
            assert(reference_spec(start.puts[k]) == r);
        } else {
            assert(s.blobs.contains_key(r));
            if among(start.puts, k, r) {
                let i = choose|i: int|
                    0 <= i < k && i < start.puts.len() && reference_spec(#[trigger] start.puts[i])
                        == r;
                assert(reference_spec(start.puts[i]) == r);
            }
        }
    }
}

proof fn lemma_settle_from(start: State, s: State)
    requires
        settling(s),
        on_course(start, s),
    ensures
        consistent(settle(s).0),
        settle(s).0.manifests == s.manifests,
        keeps(s.blobs, settle(s).0.blobs),
        settle(s).1 is Finish <==> settle(s).0.phase == Phase::Idle,
        accounted(s, settle(s)),
        0 <= steps_left(settle(s).0) <= steps_left(s),
        on_course_step(start, settle(s)),
    decreases s.puts.len() + s.banks.len(),
{
    if s.puts.len() > 0 {
        let payload = s.puts[0];
        if s.blobs.contains_key(reference_spec(payload)) {
            let next = State { blobs: after_put(s.blobs, payload), puts: s.puts.skip(1), ..s };
            assert forall|name: Seq<char>, r: Reference| #[trigger]
                refers(next.manifests, name, r) implies next.blobs.contains_key(r) by {
                assert(refers(s.manifests, name, r));
            }
            lemma_put_keeps_content_addressed(s.blobs, payload);
            lemma_put_on_course(start, s, next);
            lemma_settle_from(start, next);
            lemma_keeps_transitive(s.blobs, next.blobs, settle(s).0.blobs);
        }
    } else if s.banks.len() > 0 {
        let head = s.banks[0];
        let rest = s.banks.skip(1);
        assert(banks_wf(rest)) by {
            assert forall|i: int| 0 <= i < rest.len() implies (#[trigger] rest[i]).bank.wf() by {
                assert(s.banks[i + 1].bank.wf());
            }
        }
        if s.aborted {
            lemma_settle_from(
                start,
                State {
                    banks: rest,
                    failed: s.failed.push(FailureView { bank: head.name, cause: Cause::Aborted }),
                    ..s
                },
            );
        } else {
            lemma_first_dangling(s.blobs, head.bank.slots);
            match first_dangling(s.blobs, head.bank.slots) {
                Some(r) => {
                    lemma_settle_from(
                        start,
                        State {
                            banks: rest,
                            failed: s.failed.push(
                                FailureView { bank: head.name, cause: Cause::Dangling(r) },
                            ),
                            ..s
                        },
                    );
                },
                None => {},
            }
        }
    } else {
        lemma_releases_keep_domain(s.blobs, s.releases);
        let end = finish(s).0;
        assert forall|name: Seq<char>, r: Reference| #[trigger]
            refers(end.manifests, name, r) implies end.blobs.contains_key(r) by {
            assert(refers(s.manifests, name, r));
            assert(s.blobs.dom().contains(r));
        }
        lemma_releases_keep_payloads(s.blobs, s.releases);
        lemma_releases_keep_content_addressed(s.blobs, s.releases);
        lemma_keeps_transitive(start.blobs, s.blobs, end.blobs);
        if s.failed.len() == 0 {
            assert forall|i: int| 0 <= i < start.puts.len() implies stored(
                end.blobs,
                #[trigger] start.puts[i],
            ) by {
                assert(stored(s.blobs, start.puts[i]));
                assert(s.blobs.dom().contains(reference_spec(start.puts[i])));
            }
            assert forall|r: Reference| #[trigger] end.blobs.contains_key(r) implies start.blobs.contains_key(
                r,
            ) || among(start.puts, start.puts.len() as int, r) by {
                assert(end.blobs.dom().contains(r));
                assert(s.blobs.contains_key(r));
            }
        }
    }
}

/// A state is on course for its own commit.
proof fn lemma_on_own_course(s: State)
    ensures
        on_course(s, s),
{
    assert(s.puts =~= s.puts.skip(0));
}

/// Settling keeps the coordinator consistent, changes no live manifest,
/// and neither drops nor changes a stored entity.
pub proof fn lemma_settle(s: State)
    requires
        settling(s),
    ensures
        consistent(settle(s).0),
        settle(s).0.manifests == s.manifests,
        keeps(s.blobs, settle(s).0.blobs),
        settle(s).1 is Finish <==> settle(s).0.phase == Phase::Idle,
        accounted(s, settle(s)),
        0 <= steps_left(settle(s).0) <= steps_left(s),
{
    lemma_on_own_course(s);
    lemma_settle_from(s, s);
}

proof fn lemma_step_from(start: State, s: State, result: IoResult)
    requires
        consistent(s),
        s.phase == Phase::Committing,
        on_course(start, s),
    ensures
        consistent(advance(s, result).0),
        keeps(s.blobs, advance(s, result).0.blobs),
        advance(s, result).1 is Finish <==> advance(s, result).0.phase == Phase::Idle,
        accounted(s, advance(s, result)),
        advance(s, result).0.manifests == if s.pending == Pending::Rename && result
            == IoResult::Done {
            s.manifests.insert(s.banks[0].name, encode(s.banks[0].bank))
        } else {
            s.manifests
        },
        0 <= steps_left(advance(s, result).0) < steps_left(s),
        s.pending == Pending::BlobWrite && result == IoResult::Done ==> {
            let r = reference_spec(s.puts[0]);
            advance(s, result).0.blobs.contains_key(r) && advance(s, result).0.blobs[r].payload
                == s.puts[0]
        },
        on_course_step(start, advance(s, result)),
{
    match s.pending {
        Pending::Nothing => {},
        Pending::BlobWrite => match result {
            IoResult::Done => {
                let next = State {
                    blobs: after_put(s.blobs, s.puts[0]),
                    puts: s.puts.skip(1),
                    pending: Pending::Nothing,
                    ..s
                };
                assert forall|name: Seq<char>, r: Reference| #[trigger]
                    refers(next.manifests, name, r) implies next.blobs.contains_key(r) by {
                    assert(refers(s.manifests, name, r));
                }
                lemma_put_keeps_content_addressed(s.blobs, s.puts[0]);
                lemma_put_on_course(start, s, next);
                lemma_settle_from(start, next);
                assert(next.blobs.contains_key(reference_spec(s.puts[0])));
                lemma_keeps_transitive(s.blobs, next.blobs, advance(s, result).0.blobs);
            },
            IoResult::Failed(f) => {},
        },
        Pending::TempWrite => {},
        Pending::Rename => match result {
            IoResult::Done => {
                let head = s.banks[0];
                let rest = s.banks.skip(1);
                let next = State {
                    manifests: s.manifests.insert(head.name, encode(head.bank)),
                    committed: s.committed.push(head.name),
                    banks: rest,
                    pending: Pending::Nothing,
                    ..s
                };
                lemma_decode_encode(head.bank);
                assert forall|name: Seq<char>, r: Reference| #[trigger]
                    refers(next.manifests, name, r) implies next.blobs.contains_key(r) by {
                    if name == head.name {
                        assert(head.bank.names(r));
                    } else {
                        assert(refers(s.manifests, name, r));
                    }
                }
                assert(banks_wf(rest)) by {
                    assert forall|i: int| 0 <= i < rest.len() implies (
                    #[trigger] rest[i]).bank.wf() by {
                        assert(s.banks[i + 1].bank.wf());
                    }
                }
                lemma_settle_from(start, next);
            },
            IoResult::Failed(f) => {},
        },
        Pending::TempRemoval => {
            let rest = s.banks.skip(1);
            assert(banks_wf(rest)) by {
                assert forall|i: int| 0 <= i < rest.len() implies (#[trigger] rest[i]).bank.wf() by {
                    assert(s.banks[i + 1].bank.wf());
                }
            }
            lemma_settle_from(start, State { banks: rest, pending: Pending::Nothing, ..s });
        },
    }
}

proof fn lemma_step(s: State, result: IoResult)
    requires
        consistent(s),
        s.phase == Phase::Committing,
    ensures
        consistent(advance(s, result).0),
        keeps(s.blobs, advance(s, result).0.blobs),
        advance(s, result).1 is Finish <==> advance(s, result).0.phase == Phase::Idle,
        accounted(s, advance(s, result)),
        advance(s, result).0.manifests == if s.pending == Pending::Rename && result
            == IoResult::Done {
            s.manifests.insert(s.banks[0].name, encode(s.banks[0].bank))
        } else {
            s.manifests
        },
        0 <= steps_left(advance(s, result).0) < steps_left(s),
        s.pending == Pending::BlobWrite && result == IoResult::Done ==> {
            let r = reference_spec(s.puts[0]);
            advance(s, result).0.blobs.contains_key(r) && advance(s, result).0.blobs[r].payload
                == s.puts[0]
        },
{
    lemma_on_own_course(s);
    lemma_step_from(s, s, result);
}

/// A commit that ends as `Committed` has stored every payload that was
/// staged when it began, whatever else the caller reported on the way:
/// what the store held before is held unchanged, each staged payload is
/// held under its reference, and nothing else was added. A commit in
/// which the writing of a payload failed never ends so.
pub proof fn lemma_committed_means_stored(start: State, results: Seq<IoResult>)
    requires
        consistent(start),
        start.phase == Phase::Open,
    ensures
        consistent(commit_run(start, results).0),
        keeps(start.blobs, commit_run(start, results).0.blobs),
        commit_run(start, results).1 is Finish <==> commit_run(start, results).0.phase
            == Phase::Idle,
        ends_committed(commit_run(start, results).1) ==> stored_all(
            start,
            commit_run(start, results).0,
        ),
        on_course_step(start, commit_run(start, results)),
    decreases results.len(),
{
    if results.len() == 0 {
        let first = State { phase: Phase::Committing, ..start };
        assert(first.puts =~= start.puts.skip(0));
        lemma_settle_from(start, first);
    } else {
        lemma_committed_means_stored(start, results.drop_last());
        let before = commit_run(start, results.drop_last());
        if !(before.1 is Finish) {
            lemma_step_from(start, before.0, results.last());
        }
    }
}

/// A payload that could not be written ends the commit at once, and not
/// as `Committed`: the outcome names the reference and the failure, no
/// release is applied, and what a reader finds is what it found before
/// the step.
pub proof fn lemma_failed_write_ends_commit(s: State, f: IoFailure)
    requires
        consistent(s),
        s.phase == Phase::Committing,
        s.pending == Pending::BlobWrite,
    ensures
        advance(s, IoResult::Failed(f)).1 matches RequestView::Finish(
            OutcomeView::EntityWriteFailed { reference, failure, left_out },
        ) && reference == reference_spec(s.puts[0]) && failure == f && left_out.len()
            == s.banks.len(),
        !ends_committed(advance(s, IoResult::Failed(f)).1),
        advance(s, IoResult::Failed(f)).0.blobs == s.blobs,
        advance(s, IoResult::Failed(f)).0.manifests == s.manifests,
        advance(s, IoResult::Failed(f)).0.phase == Phase::Idle,
        !advance(s, IoResult::Failed(f)).0.blobs.contains_key(reference_spec(s.puts[0])),
{
}

/// The same bytes put twice in a transaction that is committed leave
/// exactly one new entity, where none of that reference was stored
/// before.
pub proof fn lemma_same_bytes_one_new_entity(start: State, results: Seq<IoResult>)
    requires
        consistent(start),
        start.phase == Phase::Open,
        start.puts.len() == 2,
        start.puts[0] == start.puts[1],
        ends_committed(commit_run(start, results).1),
    ensures
        commit_run(start, results).0.blobs.dom() == start.blobs.dom().insert(
            reference_spec(start.puts[0]),
        ),
        keeps(start.blobs, commit_run(start, results).0.blobs),
{
    lemma_committed_means_stored(start, results);
    let end = commit_run(start, results).0;
    let r = reference_spec(start.puts[0]);
    assert(stored(end.blobs, start.puts[0]));
    assert forall|q: Reference| end.blobs.dom().contains(q) <==> start.blobs.dom().insert(
        r,
    ).contains(q) by {
        if end.blobs.contains_key(q) && !start.blobs.contains_key(q) {
            assert(among(start.puts, 2, q));
        }
        if start.blobs.contains_key(q) {
            assert(end.blobs.contains_key(q));
        }
    }
    assert(end.blobs.dom() =~= start.blobs.dom().insert(r));
}

/// Whatever the caller reports, a step of a commit keeps the coordinator
/// consistent. In particular every reference that a live manifest names
/// is still held by the store, during the commit and when it is over, and
/// no stored entity is dropped.
pub proof fn lemma_advance_consistent(s: State, result: IoResult)
    requires
        consistent(s),
        s.phase == Phase::Committing,
    ensures
        consistent(advance(s, result).0),
        no_dangling(advance(s, result).0.blobs, advance(s, result).0.manifests),
        keeps(s.blobs, advance(s, result).0.blobs),
        advance(s, result).1 is Finish <==> advance(s, result).0.phase == Phase::Idle,
{
    lemma_step(s, result);
}

/// No bank of a transaction is lost: at each step the banks renamed, left
/// out and still to come are as many as before, and the outcome lists
/// each bank as renamed or as left out. A commit that left none out ends
/// as `Committed`.
pub proof fn lemma_every_bank_accounted(s: State, result: IoResult)
    requires
        consistent(s),
        s.phase == Phase::Committing,
    ensures
        accounted(s, advance(s, result)),
{
    lemma_step(s, result);
}

/// A commit comes to its end: each step leaves fewer requests to make
/// than the one before, and never fewer than none.
pub proof fn lemma_commit_progresses(s: State, result: IoResult)
    requires
        consistent(s),
        s.phase == Phase::Committing,
    ensures
        0 <= steps_left(advance(s, result).0) < steps_left(s),
{
    lemma_step(s, result);
}

/// An entity whose write the caller reports as done is stored under its
/// reference from then on, with the bytes that were put; and no step of a
/// commit drops or changes an entity that was stored before.
pub proof fn lemma_written_entity_is_stored(s: State, result: IoResult)
    requires
        consistent(s),
        s.phase == Phase::Committing,
    ensures
        keeps(s.blobs, advance(s, result).0.blobs),
        s.pending == Pending::BlobWrite && result == IoResult::Done ==> {
            let r = reference_spec(s.puts[0]);
            advance(s, result).0.blobs.contains_key(r) && advance(s, result).0.blobs[r].payload
                == s.puts[0]
        },
{
    lemma_step(s, result);
}

/// Beginning a commit keeps the coordinator consistent and changes no
/// live manifest; every reference that a live manifest names is held by
/// the store, also where the commit is over at once.
pub proof fn lemma_begin_consistent(s: State)
    requires
        consistent(s),
        s.phase == Phase::Open,
    ensures
        consistent(begin(s).0),
        no_dangling(begin(s).0.blobs, begin(s).0.manifests),
        begin(s).0.manifests == s.manifests,
        begin(s).1 is Finish <==> begin(s).0.phase == Phase::Idle,
        accounted(State { phase: Phase::Committing, ..s }, begin(s)),
{
    lemma_settle(State { phase: Phase::Committing, ..s });
}

/// The live manifests change at one point only: when the caller reports
/// that a rename was done. Then the bank renamed gets its staged manifest,
/// and every other bank keeps its own. Until then, and so too if the
/// process is killed between the writing of the temporary file and the
/// rename, every live manifest is what it was.
pub proof fn lemma_rename_is_commit_point(s: State, result: IoResult)
    requires
        consistent(s),
        s.phase == Phase::Committing,
    ensures
        advance(s, result).0.manifests == if s.pending == Pending::Rename && result
            == IoResult::Done {
            s.manifests.insert(s.banks[0].name, encode(s.banks[0].bank))
        } else {
            s.manifests
        },
        s.pending == Pending::TempWrite ==> without_transaction(advance(s, result).0).manifests
            == s.manifests,
        without_transaction(s).manifests == s.manifests,
        consistent(without_transaction(s)),
        s.pending == Pending::Rename && result == IoResult::Done ==> loaded(
            advance(s, result).0.manifests,
            s.banks[0].name,
        ) == Some(s.banks[0].bank),
{
    lemma_step(s, result);
    if s.pending == Pending::Rename {
        lemma_decode_encode(s.banks[0].bank);
    }
}

/// In a consistent coordinator, whatever a bank that loads names is
/// stored, and the bytes stored under it have that digest: getting it
/// does not fail, and gives bytes whose put returns that reference.
pub proof fn lemma_named_entities_are_stored(s: State, name: Seq<char>, r: Reference)
    requires
        consistent(s),
        loaded(s.manifests, name) is Some,
        loaded(s.manifests, name)->0.names(r),
    ensures
        s.blobs.contains_key(r),
        reference_spec(s.blobs[r].payload) == r,
{
    assert(refers(s.manifests, name, r));
}

/// The coordinator that holds nothing and has no transaction open.
pub open spec fn initial() -> State {
    State {
        blobs: Map::empty(),
        manifests: Map::empty(),
        phase: Phase::Idle,
        puts: Seq::empty(),
        releases: Seq::empty(),
        banks: Seq::empty(),
        pending: Pending::Nothing,
        aborted: false,
        committed: Seq::empty(),
        failed: Seq::empty(),
    }
}

/// Where the bank of this name stands among the staged banks: the index of
/// the first with that name, or their number if there is none.
pub open spec fn position(banks: Seq<StagedBankView>, name: Seq<char>) -> int
    decreases banks.len(),
{
    if banks.len() == 0 {
        0
    } else if banks[0].name == name {
        0
    } else {
        1 + position(banks.skip(1), name)
    }
}

/// The position is that of the first staged bank of the name.
pub proof fn lemma_position(banks: Seq<StagedBankView>, name: Seq<char>)
    ensures
        0 <= position(banks, name) <= banks.len(),
        position(banks, name) < banks.len() ==> banks[position(banks, name)].name == name,
        forall|j: int| 0 <= j < position(banks, name) ==> (#[trigger] banks[j]).name != name,
    decreases banks.len(),
{
    if banks.len() > 0 && banks[0].name != name {
        let rest = banks.skip(1);
        lemma_position(rest, name);
        assert forall|j: int| 0 <= j < position(banks, name) implies (#[trigger] banks[j]).name
            != name by {
            if j > 0 {
                assert(rest[j - 1].name != name);
            }
        }
    }
}

/// An index before which no staged bank has the name, and which is the
/// end or holds the name, is the position.
pub proof fn lemma_position_is(banks: Seq<StagedBankView>, name: Seq<char>, i: int)
    requires
        0 <= i <= banks.len(),
        forall|j: int| 0 <= j < i ==> (#[trigger] banks[j]).name != name,
        i < banks.len() ==> banks[i].name == name,
    ensures
        position(banks, name) == i,
{
    lemma_position(banks, name);
    let p = position(banks, name);
    if p < i {
        assert(banks[p].name != name);
    } else if i < p {
        assert(banks[i].name != name);
    }
}

/// The staged banks after `bank` is staged under `name`: in place of the
/// one staged under that name before, or else last.
pub open spec fn staged(banks: Seq<StagedBankView>, name: Seq<char>, bank: BankView) -> Seq<
    StagedBankView,
> {
    let p = position(banks, name);
    if p < banks.len() {
        banks.update(p, StagedBankView { name, bank })
    } else {
        banks.push(StagedBankView { name, bank })
    }
}

/// The bank of this name as the open transaction sees it: as staged, or
/// else as loaded.
pub open spec fn working(s: State, name: Seq<char>) -> Option<BankView> {
    let p = position(s.banks, name);
    if p < s.banks.len() {
        Some(s.banks[p].bank)
    } else {
        loaded(s.manifests, name)
    }
}

/// The state with a transaction opened.
pub open spec fn opened(s: State) -> State {
    State { phase: Phase::Open, ..s }
}

/// The state with one more payload staged.
pub open spec fn with_put(s: State, payload: Seq<u8>) -> State {
    State { puts: s.puts.push(payload), ..s }
}

/// Whether an entity of this reference is stored or staged to be stored.
pub open spec fn known(s: State, r: Reference) -> bool {
    s.blobs.contains_key(r) || exists|i: int|
        0 <= i < s.puts.len() && reference_spec(#[trigger] s.puts[i]) == r
}

/// The state with one more release staged.
pub open spec fn with_release(s: State, r: Reference) -> State {
    State { releases: s.releases.push(r), ..s }
}

/// The state with `bank` staged under `name`.
pub open spec fn with_bank(s: State, name: Seq<char>, bank: BankView) -> State {
    State { banks: staged(s.banks, name, bank), ..s }
}

/// The state after an edit of the bank of this name is staged. Nothing
/// changes unless a transaction is open, the bank can be had, and the bank
/// has the slots that the edit addresses.
pub open spec fn after_edit(s: State, name: Seq<char>, edit: SlotEdit) -> State {
    match working(s, name) {
        Some(bank) => if s.phase == Phase::Open && edit_refusal(bank, edit) is None {
            with_bank(s, name, edited(bank, edit))
        } else {
            s
        },
        None => s,
    }
}

/// The state with the caller's wish to stop recorded.
pub open spec fn aborting(s: State) -> State {
    State { aborted: true, ..s }
}

/// The references that a sweep spares whatever their use count: those
/// that a live manifest names.
pub open spec fn spared(manifests: ManifestsView) -> Set<Reference> {
    Set::new(|r: Reference| referred(manifests, r))
}

/// The state after a sweep.
pub open spec fn after_sweeping(s: State) -> State {
    State { blobs: after_sweep(s.blobs, spared(s.manifests)), ..s }
}

/// The store after one use is counted for each occupied slot, first slot
/// first.
pub open spec fn hold_all(blobs: StoreView, slots: Seq<Option<Reference>>) -> StoreView
    decreases slots.len(),
{
    if slots.len() == 0 {
        blobs
    } else {
        match slots[0] {
            Some(r) => hold_all(after_hold(blobs, r), slots.skip(1)),
            None => hold_all(blobs, slots.skip(1)),
        }
    }
}

/// The state after a payload found on disk is taken in.
pub open spec fn with_entity(s: State, payload: Seq<u8>) -> State {
    State { blobs: after_adopt(s.blobs, payload), ..s }
}

/// The state after a manifest found on disk is taken in: it becomes the
/// live manifest of the name, and if it parses, each of its occupied
/// slots counts as one use.
pub open spec fn with_manifest(s: State, name: Seq<char>, bytes: Seq<u8>) -> State {
    State {
        blobs: match decode(bytes) {
            Some(bank) => hold_all(s.blobs, bank.slots),
            None => s.blobs,
        },
        manifests: s.manifests.insert(name, bytes),
        ..s
    }
}

/// Counting uses deletes nothing and adds nothing.
pub proof fn lemma_hold_all_keeps_domain(blobs: StoreView, slots: Seq<Option<Reference>>)
    ensures
        hold_all(blobs, slots).dom() == blobs.dom(),
    decreases slots.len(),
{
    if slots.len() > 0 {
        match slots[0] {
            Some(r) => {
                assert(after_hold(blobs, r).dom() =~= blobs.dom());
                lemma_hold_all_keeps_domain(after_hold(blobs, r), slots.skip(1));
            },
            None => {
                lemma_hold_all_keeps_domain(blobs, slots.skip(1));
            },
        }
    }
}

/// Staging changes nothing that a reader can see, and keeps the
/// coordinator consistent.
pub proof fn lemma_staging_is_private(s: State, payload: Seq<u8>, r: Reference, name: Seq<char>, bank: BankView, edit: SlotEdit)
    requires
        consistent(s),
        s.phase == Phase::Open,
        bank.wf(),
    ensures
        with_put(s, payload).blobs == s.blobs && with_put(s, payload).manifests == s.manifests,
        with_release(s, r).blobs == s.blobs && with_release(s, r).manifests == s.manifests,
        with_bank(s, name, bank).blobs == s.blobs && with_bank(s, name, bank).manifests
            == s.manifests,
        after_edit(s, name, edit).blobs == s.blobs && after_edit(s, name, edit).manifests
            == s.manifests,
        consistent(with_put(s, payload)),
        consistent(with_release(s, r)),
        consistent(with_bank(s, name, bank)),
        consistent(after_edit(s, name, edit)),
{
    lemma_staged_wf(s.banks, name, bank);
    match working(s, name) {
        Some(b) => {
            lemma_working_wf(s, name);
            lemma_edited_wf(b, edit);
            lemma_staged_wf(s.banks, name, edited(b, edit));
        },
        None => {},
    }
}

/// Staging a bank of a shape within limits keeps all staged banks so.
pub proof fn lemma_staged_wf(banks: Seq<StagedBankView>, name: Seq<char>, bank: BankView)
    requires
        banks_wf(banks),
        bank.wf(),
    ensures
        banks_wf(staged(banks, name, bank)),
{
    lemma_position(banks, name);
    let next = staged(banks, name, bank);
    assert forall|i: int| 0 <= i < next.len() implies (#[trigger] next[i]).bank.wf() by {
        if i < banks.len() && i != position(banks, name) {
            assert(banks[i].bank.wf());
        }
    }
}

/// The bank that the transaction sees has a shape within limits.
pub proof fn lemma_working_wf(s: State, name: Seq<char>)
    requires
        banks_wf(s.banks),
        working(s, name) is Some,
    ensures
        working(s, name)->0.wf(),
{
    lemma_position(s.banks, name);
    let p = position(s.banks, name);
    if p < s.banks.len() {
        assert(s.banks[p].bank.wf());
    } else {
        crate::manifest::lemma_encode_decode(s.manifests[name]);
    }
}

/// Rolling back an open transaction drops what was staged and nothing
/// else: what a reader finds is what it found before the transaction.
pub proof fn lemma_rollback_restores(s: State)
    requires
        consistent(s),
        s.phase == Phase::Open,
    ensures
        consistent(without_transaction(s)),
        without_transaction(s).blobs == s.blobs,
        without_transaction(s).manifests == s.manifests,
        without_transaction(s).phase == Phase::Idle,
{
}

/// A sweep, which runs only while no transaction is open, leaves held
/// every reference that a live manifest names.
pub proof fn lemma_sweep_consistent(s: State)
    requires
        consistent(s),
        s.phase == Phase::Idle,
    ensures
        consistent(after_sweeping(s)),
        after_sweeping(s).manifests == s.manifests,
{
    let next = after_sweeping(s);
    assert forall|name: Seq<char>, r: Reference| #[trigger]
        refers(next.manifests, name, r) implies next.blobs.contains_key(r) by {
        assert(referred(s.manifests, r));
        assert(spared(s.manifests).contains(r));
    }
}

} // verus!
