//! The transaction coordinator: one store of entities, the live manifest
//! of every bank, and at most one open transaction, whose changes are
//! staged in memory and reach the files only through a commit.

use vstd::prelude::*;
use crate::bank::{edit_refusal, edit_yield, edited, lemma_edited_wf, Bank, SlotEdit};
use crate::bank_manager::{loaded, referred, refers, BankManager};
use crate::bytes::copy_bytes;
use crate::digest::{reference_of, Reference};
use crate::entity_store::{after_hold, after_put, after_release, reference_spec, swept, EntityStore};
use crate::error::{
    is_commit_failure, is_corrupt_manifest, is_missing_bank, Cause, Error, IoFailure, Missing,
};
use crate::manifest::{decode, lemma_decode_encode};
use crate::protocol::{
    aborting, advance, after_edit, after_sweeping, apply_releases, banks_wf, begin, consistent,
    fail_all, finish, first_dangling, hold_all, initial, known, lemma_advance_consistent,
    lemma_begin_consistent, lemma_first_dangling, lemma_hold_all_keeps_domain, lemma_position,
    lemma_position_is, lemma_staged_wf, lemma_sweep_consistent, lemma_working_wf, no_dangling,
    opened, position, settle, settling, spared, staged, with_bank, with_entity, with_manifest,
    with_put, with_release, without_transaction, working, FailureView, IoResult, OutcomeView,
    Pending, Phase, RequestView, StagedBankView, State,
};

verus! {

/// A bank that a commit left out, and why.
#[derive(Debug, PartialEq, Eq)]
pub struct BankFailure {
    pub bank: String,
    pub cause: Cause,
}

impl View for BankFailure {
    type V = FailureView;

    open spec fn view(&self) -> FailureView {
        FailureView { bank: self.bank@, cause: self.cause }
    }
}

impl BankFailure {
    /// The failure as an error to hand to the caller.
    pub fn into_error(self) -> (e: Error)
        ensures
            is_commit_failure(e, self.bank@, self.cause),
    {
        Error::CommitFailed { bank: self.bank, cause: self.cause }
    }
}

/// The views of a list of names.
pub open spec fn names_of(names: Seq<String>) -> Seq<Seq<char>> {
    Seq::new(names.len(), |i: int| names[i]@)
}

/// The views of a list of failures.
pub open spec fn failures_of(failed: Seq<BankFailure>) -> Seq<FailureView> {
    Seq::new(failed.len(), |i: int| failed[i]@)
}

/// How a commit ended.
#[derive(Debug, PartialEq, Eq)]
pub enum Outcome {
    /// Every payload was stored and every touched bank was renamed, in
    /// this order; the releases were applied.
    Committed { banks: Vec<String> },
    /// Every payload was stored. Some banks were renamed and stand; the
    /// others were left as they were.
    PartialCommit { committed: Vec<String>, failed: Vec<BankFailure> },
    /// The payload of this reference could not be stored. No bank was
    /// renamed, and every bank of the transaction was left as it was.
    EntityWriteFailed { reference: Reference, failure: IoFailure, left_out: Vec<BankFailure> },
}

impl View for Outcome {
    type V = OutcomeView;

    open spec fn view(&self) -> OutcomeView {
        match self {
            Outcome::Committed { banks } => OutcomeView::Committed { banks: names_of(banks@) },
            Outcome::PartialCommit { committed, failed } => OutcomeView::PartialCommit {
                committed: names_of(committed@),
                failed: failures_of(failed@),
            },
            Outcome::EntityWriteFailed { reference, failure, left_out } => {
                OutcomeView::EntityWriteFailed {
                    reference: *reference,
                    failure: *failure,
                    left_out: failures_of(left_out@),
                }
            },
        }
    }
}

/// What the coordinator asks the caller to do with the files. The caller
/// does it and reports the result to `advance`, but for `Finish`, which
/// ends the commit.
#[derive(Debug, PartialEq, Eq)]
pub enum Request {
    /// Write the payload to the file named by the reference.
    WriteBlob { reference: Reference, payload: Vec<u8> },
    /// Write the bytes to the temporary path of the bank.
    WriteTemp { bank: String, bytes: Vec<u8> },
    /// Rename the temporary file of the bank over its live manifest, in
    /// one call.
    Rename { bank: String },
    /// Delete the temporary file of the bank, if there is one.
    RemoveTemp { bank: String },
    /// Nothing is left to do.
    Finish(Outcome),
}

impl View for Request {
    type V = RequestView;

    open spec fn view(&self) -> RequestView {
        match self {
            Request::WriteBlob { reference, payload } => RequestView::WriteBlob {
                reference: *reference,
                payload: payload@,
            },
            Request::WriteTemp { bank, bytes } => RequestView::WriteTemp {
                bank: bank@,
                bytes: bytes@,
            },
            Request::Rename { bank } => RequestView::Rename { bank: bank@ },
            Request::RemoveTemp { bank } => RequestView::RemoveTemp { bank: bank@ },
            Request::Finish(outcome) => RequestView::Finish(outcome@),
        }
    }
}

/// What a rollback did.
#[derive(Debug, Clone, Copy, PartialEq, Eq, Structural)]
pub enum Rollback {
    /// No transaction was open.
    NothingOpen,
    /// The open transaction and all it had staged are gone.
    Discarded,
    /// A commit is under way: banks not yet begun will be left out.
    Aborting,
}

struct StagedBank {
    name: String,
    bank: Bank,
}

impl View for StagedBank {
    type V = StagedBankView;

    closed spec fn view(&self) -> StagedBankView {
        StagedBankView { name: self.name@, bank: self.bank@ }
    }
}

spec fn payloads_of(puts: Seq<Vec<u8>>) -> Seq<Seq<u8>> {
    Seq::new(puts.len(), |i: int| puts[i]@)
}

spec fn staged_of(banks: Seq<StagedBank>) -> Seq<StagedBankView> {
    Seq::new(banks.len(), |i: int| banks[i]@)
}

/// The first reference that the bank names and the store does not hold.
fn dangling(store: &EntityStore, bank: &Bank) -> (found: Option<Reference>)
    requires
        store.wf(),
        bank.wf(),
    ensures
        found == first_dangling(store@, bank@.slots),
{
    let n: usize = bank.slot_count();
    let mut i: usize = 0;
    assert(bank@.slots.skip(0) =~= bank@.slots);
    while i < n
        invariant
            store.wf(),
            bank.wf(),
            n == bank@.slots.len(),
            i <= n,
            first_dangling(store@, bank@.slots.skip(i as int)) == first_dangling(
                store@,
                bank@.slots,
            ),
        decreases n - i,
    {
        let ghost rest = bank@.slots.skip(i as int);
        assert(rest.len() > 0 && rest[0] == bank@.slots[i as int]);
        assert(rest.skip(1) =~= bank@.slots.skip(i + 1));
        match bank.slot_at(i) {
            Some(r) => {
                if !store.contains(r) {
                    return Some(r);
                }
            },
            None => {},
        }
        i += 1;
    }
    assert(bank@.slots.skip(i as int).len() == 0);
    None
}

/// Counts one use for each occupied slot of the bank.
fn count_uses(store: &mut EntityStore, bank: &Bank)
    requires
        old(store).wf(),
        bank.wf(),
    ensures
        final(store).wf(),
        final(store)@ == hold_all(old(store)@, bank@.slots),
{
    let n: usize = bank.slot_count();
    let mut i: usize = 0;
    assert(bank@.slots.skip(0) =~= bank@.slots);
    while i < n
        invariant
            store.wf(),
            bank.wf(),
            n == bank@.slots.len(),
            i <= n,
            hold_all(store@, bank@.slots.skip(i as int)) == hold_all(old(store)@, bank@.slots),
        decreases n - i,
    {
        let ghost rest = bank@.slots.skip(i as int);
        assert(rest.len() > 0 && rest[0] == bank@.slots[i as int]);
        assert(rest.skip(1) =~= bank@.slots.skip(i + 1));
        match bank.slot_at(i) {
            Some(r) => {
                let _ = store.hold(r);
            },
            None => {},
        }
        i += 1;
    }
    assert(bank@.slots.skip(i as int).len() == 0);
}

/// Applies the releases, oldest first.
fn release_all(store: &mut EntityStore, releases: &Vec<Reference>)
    requires
        old(store).wf(),
    ensures
        final(store).wf(),
        final(store)@ == apply_releases(old(store)@, releases@),
{
    let mut i: usize = 0;
    assert(releases@.skip(0) =~= releases@);
    while i < releases.len()
        invariant
            store.wf(),
            i <= releases.len(),
            apply_releases(store@, releases@.skip(i as int)) == apply_releases(
                old(store)@,
                releases@,
            ),
        decreases releases.len() - i,
    {
        let ghost rest = releases@.skip(i as int);
        assert(rest.len() > 0 && rest[0] == releases@[i as int]);
        assert(rest.skip(1) =~= releases@.skip(i + 1));
        let _ = store.release(releases[i]);
        i += 1;
    }
    assert(releases@.skip(i as int).len() == 0);
}

proof fn lemma_growth_keeps_no_dangling(
    before: crate::entity_store::StoreView,
    after: crate::entity_store::StoreView,
    manifests: crate::bank_manager::ManifestsView,
)
    requires
        no_dangling(before, manifests),
        crate::protocol::keeps(before, after),
    ensures
        no_dangling(after, manifests),
{
    assert forall|name: Seq<char>, r: Reference| #[trigger]
        refers(manifests, name, r) implies after.contains_key(r) by {
        assert(before.contains_key(r));
    }
}

proof fn lemma_rest_wf(banks: Seq<StagedBankView>)
    requires
        banks_wf(banks),
        banks.len() > 0,
    ensures
        banks_wf(banks.skip(1)),
{
    let rest = banks.skip(1);
    assert forall|i: int| 0 <= i < rest.len() implies (#[trigger] rest[i]).bank.wf() by {
        assert(banks[i + 1].bank.wf());
    }
}

/// Entities, banks, and the one transaction that may be open on them.
pub struct Coordinator {
    store: EntityStore,
    manager: BankManager,
    phase: Phase,
    puts: Vec<Vec<u8>>,
    releases: Vec<Reference>,
    banks: Vec<StagedBank>,
    pending: Pending,
    aborted: bool,
    committed: Vec<String>,
    failed: Vec<BankFailure>,
}

impl View for Coordinator {
    type V = State;

    closed spec fn view(&self) -> State {
        State {
            blobs: self.store@,
            manifests: self.manager@,
            phase: self.phase,
            puts: payloads_of(self.puts@),
            releases: self.releases@,
            banks: staged_of(self.banks@),
            pending: self.pending,
            aborted: self.aborted,
            committed: names_of(self.committed@),
            failed: failures_of(self.failed@),
        }
    }
}

impl Coordinator {
    /// The parts are well formed each by itself.
    pub closed spec fn parts_wf(&self) -> bool {
        self.store.wf() && self.manager.wf()
    }

    /// The parts are well formed and fit together: in particular, every
    /// reference that a live manifest names is held by the store.
    pub open spec fn wf(&self) -> bool {
        self.parts_wf() && consistent(self@)
    }

    /// A coordinator that holds nothing.
    pub fn new() -> (made: Coordinator)
        ensures
            made.wf(),
            made@ == initial(),
    {
        let made = Coordinator {
            store: EntityStore::new(),
            manager: BankManager::new(),
            phase: Phase::Idle,
            puts: Vec::new(),
            releases: Vec::new(),
            banks: Vec::new(),
            pending: Pending::Nothing,
            aborted: false,
            committed: Vec::new(),
            failed: Vec::new(),
        };
        assert(made@ =~= initial());
        made
    }

    /// Where the coordinator stands.
    pub fn phase(&self) -> (phase: Phase)
        ensures
            phase == self@.phase,
    {
        self.phase
    }

    /// The payload stored under `r`, as committed: bytes whose digest is
    /// `r`. What the open transaction has staged is not seen.
    pub fn get(&self, r: Reference) -> (result: Result<&Vec<u8>, Error>)
        requires
            self.wf(),
        ensures
            match result {
                Ok(payload) => self@.blobs.contains_key(r) && payload@ == self@.blobs[r].payload
                    && reference_spec(payload@) == r,
                Err(e) => !self@.blobs.contains_key(r) && e == Error::NotFound(Missing::Entity(r)),
            },
    {
        self.store.get(r)
    }

    /// The bank of this name, as committed: what the open transaction has
    /// staged is not seen.
    pub fn load(&self, name: &str) -> (result: Result<Bank, Error>)
        requires
            self.wf(),
        ensures
            match result {
                Ok(bank) => bank.wf() && loaded(self@.manifests, name@) == Some(bank@),
                Err(e) => loaded(self@.manifests, name@) is None && if self@.manifests.contains_key(
                    name@,
                ) {
                    is_corrupt_manifest(e, name@)
                } else {
                    is_missing_bank(e, name@)
                },
            },
    {
        self.manager.load(name)
    }

    /// The names of the banks that exist, as committed.
    pub fn bank_names(&self) -> (names: Vec<String>)
        requires
            self.wf(),
        ensures
            forall|name: Seq<char>|
                self@.manifests.contains_key(name) <==> exists|i: int|
                    0 <= i < names@.len() && (#[trigger] names@[i])@ == name,
            forall|i: int, j: int|
                0 <= i < j < names@.len() ==> (#[trigger] names@[i])@ != (#[trigger] names@[j])@,
    {
        self.manager.bank_names()
    }

    /// The references of the entities stored, as committed.
    pub fn references(&self) -> (held: Vec<Reference>)
        requires
            self.wf(),
        ensures
            held@.no_duplicates(),
            forall|r: Reference| held@.contains(r) <==> self@.blobs.contains_key(r),
    {
        self.store.references()
    }

    /// The use count of the entity stored under `r`, as committed.
    pub fn uses(&self, r: Reference) -> (count: Option<u64>)
        requires
            self.wf(),
        ensures
            match count {
                Some(n) => self@.blobs.contains_key(r) && self@.blobs[r].uses == n,
                None => !self@.blobs.contains_key(r),
            },
    {
        self.store.uses(r)
    }

    /// Opens a transaction, unless one is open already.
    pub fn start_transaction(&mut self) -> (result: Result<(), Error>)
        requires
            old(self).wf(),
        ensures
            final(self).wf(),
            old(self)@.phase == Phase::Idle ==> result == Ok::<(), Error>(()) && final(self)@
                == opened(old(self)@),
            old(self)@.phase != Phase::Idle ==> result == Err::<(), Error>(Error::AlreadyOpen)
                && final(self)@ == old(self)@,
    {
        match self.phase {
            Phase::Idle => {
                self.phase = Phase::Open;
                assert(self@ =~= opened(old(self)@));
                Ok(())
            },
            _ => Err(Error::AlreadyOpen),
        }
    }

    /// Stages a payload in the open transaction and returns the reference
    /// that it will be stored under. Nothing is stored before the commit.
    pub fn put(&mut self, payload: &[u8]) -> (result: Result<Reference, Error>)
        requires
            old(self).wf(),
        ensures
            final(self).wf(),
            old(self)@.phase == Phase::Open ==> result == Ok::<Reference, Error>(
                reference_spec(payload@),
            ) && final(self)@ == with_put(old(self)@, payload@),
            old(self)@.phase != Phase::Open ==> result == Err::<Reference, Error>(
                Error::NotFound(Missing::Transaction),
            ) && final(self)@ == old(self)@,
    {
        match self.phase {
            Phase::Open => {
                let r = reference_of(payload);
                self.puts.push(copy_bytes(payload));
                assert(self@ =~= with_put(old(self)@, payload@));
                Ok(r)
            },
            _ => Err(Error::NotFound(Missing::Transaction)),
        }
    }

    /// Whether a payload of this reference is staged in the transaction.
    fn puts_reference(&self, r: Reference) -> (found: bool)
        ensures
            found == exists|i: int|
                0 <= i < self@.puts.len() && reference_spec(#[trigger] self@.puts[i]) == r,
    {
        let mut i: usize = 0;
        while i < self.puts.len()
            invariant
                i <= self.puts.len(),
                forall|k: int| 0 <= k < i ==> reference_spec(#[trigger] self@.puts[k]) != r,
            decreases self.puts.len() - i,
        {
            if reference_of(self.puts[i].as_slice()) == r {
                assert(reference_spec(self@.puts[i as int]) == r);
                return true;
            }
            i += 1;
        }
        false
    }

    /// Stages the release of one use of `r` in the open transaction. The
    /// use count changes only when the commit has stored every payload
    /// and renamed every bank. A reference that is neither stored nor
    /// staged is refused.
    pub fn release(&mut self, r: Reference) -> (result: Result<(), Error>)
        requires
            old(self).wf(),
        ensures
            final(self).wf(),
            old(self)@.phase != Phase::Open ==> result == Err::<(), Error>(
                Error::NotFound(Missing::Transaction),
            ) && final(self)@ == old(self)@,
            old(self)@.phase == Phase::Open && !known(old(self)@, r) ==> result == Err::<(), Error>(
                Error::NotFound(Missing::Entity(r)),
            ) && final(self)@ == old(self)@,
            old(self)@.phase == Phase::Open && known(old(self)@, r) ==> result == Ok::<(), Error>(
                (),
            ) && final(self)@ == with_release(old(self)@, r),
    {
        match self.phase {
            Phase::Open => {
                if self.store.contains(r) || self.puts_reference(r) {
                    self.releases.push(r);
                    assert(self@ =~= with_release(old(self)@, r));
                    Ok(())
                } else {
                    Err(Error::NotFound(Missing::Entity(r)))
                }
            },
            _ => Err(Error::NotFound(Missing::Transaction)),
        }
    }

    fn staged_index(&self, name: &String) -> (at: usize)
        ensures
            at == position(self@.banks, name@),
            at <= self.banks.len(),
    {
        let mut i: usize = 0;
        while i < self.banks.len()
            invariant
                i <= self.banks.len(),
                forall|j: int| 0 <= j < i ==> (#[trigger] self@.banks[j]).name != name@,
            decreases self.banks.len() - i,
        {
            if self.banks[i].name == *name {
                proof {
                    lemma_position_is(self@.banks, name@, i as int);
                }
                return i;
            }
            i += 1;
        }
        proof {
            lemma_position_is(self@.banks, name@, i as int);
        }
        i
    }

    /// Stages a whole bank under `name` in the open transaction, in place
    /// of what was staged under that name. A bank that does not exist yet
    /// comes to exist when the transaction is committed.
    pub fn stage_bank(&mut self, name: &str, bank: Bank) -> (result: Result<(), Error>)
        requires
            old(self).wf(),
            bank.wf(),
        ensures
            final(self).wf(),
            old(self)@.phase == Phase::Open ==> result == Ok::<(), Error>(()) && final(self)@
                == with_bank(old(self)@, name@, bank@),
            old(self)@.phase != Phase::Open ==> result == Err::<(), Error>(
                Error::NotFound(Missing::Transaction),
            ) && final(self)@ == old(self)@,
    {
        match self.phase {
            Phase::Open => {
                let key: String = name.to_owned();
                let at = self.staged_index(&key);
                proof {
                    lemma_staged_wf(self@.banks, name@, bank@);
                }
                let entry = StagedBank { name: key, bank };
                if at < self.banks.len() {
                    self.banks.set(at, entry);
                } else {
                    self.banks.push(entry);
                }
                assert(self@.banks =~= staged(old(self)@.banks, name@, bank@));
                assert(self@ =~= with_bank(old(self)@, name@, bank@));
                Ok(())
            },
            _ => Err(Error::NotFound(Missing::Transaction)),
        }
    }

    /// The bank of this name as the open transaction sees it: as staged,
    /// or else as committed.
    pub fn working_copy(&self, name: &str) -> (result: Result<Bank, Error>)
        requires
            self.wf(),
        ensures
            match result {
                Ok(bank) => bank.wf() && working(self@, name@) == Some(bank@),
                Err(e) => working(self@, name@) is None && if self@.manifests.contains_key(name@) {
                    is_corrupt_manifest(e, name@)
                } else {
                    is_missing_bank(e, name@)
                },
            },
    {
        let key: String = name.to_owned();
        let at = self.staged_index(&key);
        if at < self.banks.len() {
            proof {
                lemma_working_wf(self@, name@);
            }
            Ok(self.banks[at].bank.clone())
        } else {
            self.manager.load(name)
        }
    }

    /// Stages one edit of the bank of this name in the open transaction.
    pub fn edit(&mut self, name: &str, edit: SlotEdit) -> (result: Result<Option<Reference>, Error>)
        requires
            old(self).wf(),
        ensures
            final(self).wf(),
            final(self)@ == after_edit(old(self)@, name@, edit),
            edit_answer(old(self)@, name@, edit, result),
    {
        match self.phase {
            Phase::Open => {},
            _ => {
                return Err(Error::NotFound(Missing::Transaction));
            },
        }
        let key: String = name.to_owned();
        let at = self.staged_index(&key);
        proof {
            lemma_position(self@.banks, name@);
        }
        if at < self.banks.len() {
            let mut entry = self.banks.remove(at);
            let ghost before = entry.bank@;
            proof {
                lemma_working_wf(old(self)@, name@);
                lemma_edited_wf(before, edit);
                lemma_staged_wf(old(self)@.banks, name@, edited(before, edit));
            }
            let result = entry.bank.apply(edit);
            self.banks.insert(at, entry);
            proof {
                if edit_refusal(before, edit) is None {
                    assert(self@.banks =~= staged(old(self)@.banks, name@, edited(before, edit)));
                } else {
                    assert(self@.banks =~= old(self)@.banks);
                }
                assert(self@ =~= after_edit(old(self)@, name@, edit));
            }
            result
        } else {
            match self.manager.load(name) {
                Err(e) => Err(e),
                Ok(bank) => {
                    let mut bank = bank;
                    let ghost before = bank@;
                    proof {
                        lemma_edited_wf(before, edit);
                        lemma_staged_wf(old(self)@.banks, name@, edited(before, edit));
                    }
                    let result = bank.apply(edit);
                    if result.is_ok() {
                        self.banks.push(StagedBank { name: key, bank });
                        assert(self@.banks =~= staged(
                            old(self)@.banks,
                            name@,
                            edited(before, edit),
                        ));
                    }
                    assert(self@ =~= after_edit(old(self)@, name@, edit));
                    result
                },
            }
        }
    }

    /// Stages `content` as what the slot of the bank holds, and returns
    /// what the slot held before, as the transaction sees the bank.
    pub fn set_slot(
        &mut self,
        name: &str,
        box_idx: usize,
        position: usize,
        content: Option<Reference>,
    ) -> (result: Result<Option<Reference>, Error>)
        requires
            old(self).wf(),
        ensures
            final(self).wf(),
            final(self)@ == after_edit(
                old(self)@,
                name@,
                SlotEdit::Write { box_idx, position, content },
            ),
            edit_answer(old(self)@, name@, SlotEdit::Write { box_idx, position, content }, result),
    {
        self.edit(name, SlotEdit::Write { box_idx, position, content })
    }

    /// Stages a move within the bank, and returns what the second slot
    /// held before.
    pub fn move_slot(
        &mut self,
        name: &str,
        from_box: usize,
        from_position: usize,
        to_box: usize,
        to_position: usize,
    ) -> (result: Result<Option<Reference>, Error>)
        requires
            old(self).wf(),
        ensures
            final(self).wf(),
            final(self)@ == after_edit(
                old(self)@,
                name@,
                SlotEdit::Move { from_box, from_position, to_box, to_position },
            ),
            edit_answer(
                old(self)@,
                name@,
                SlotEdit::Move { from_box, from_position, to_box, to_position },
                result,
            ),
    {
        self.edit(name, SlotEdit::Move { from_box, from_position, to_box, to_position })
    }

    /// Stages the exchange of two slots of the bank.
    pub fn swap_slots(
        &mut self,
        name: &str,
        a_box: usize,
        a_position: usize,
        b_box: usize,
        b_position: usize,
    ) -> (result: Result<Option<Reference>, Error>)
        requires
            old(self).wf(),
        ensures
            final(self).wf(),
            final(self)@ == after_edit(
                old(self)@,
                name@,
                SlotEdit::Swap { a_box, a_position, b_box, b_position },
            ),
            edit_answer(
                old(self)@,
                name@,
                SlotEdit::Swap { a_box, a_position, b_box, b_position },
                result,
            ),
    {
        self.edit(name, SlotEdit::Swap { a_box, a_position, b_box, b_position })
    }


    /// The end of a commit.
    fn finish(&mut self) -> (request: Request)
        requires
            old(self).parts_wf(),
            settling(old(self)@),
            old(self)@.puts.len() == 0,
            old(self)@.banks.len() == 0,
        ensures
            final(self).parts_wf(),
            final(self)@ == finish(old(self)@).0,
            request@ == finish(old(self)@).1,
    {
        let clean: bool = self.failed.len() == 0;
        if clean {
            release_all(&mut self.store, &self.releases);
        }
        let mut committed: Vec<String> = Vec::new();
        std::mem::swap(&mut committed, &mut self.committed);
        let mut failed: Vec<BankFailure> = Vec::new();
        std::mem::swap(&mut failed, &mut self.failed);
        self.releases = Vec::new();
        self.puts = Vec::new();
        self.banks = Vec::new();
        self.phase = Phase::Idle;
        self.aborted = false;
        let outcome = if clean {
            Outcome::Committed { banks: committed }
        } else {
            Outcome::PartialCommit { committed, failed }
        };
        assert(self@ =~= finish(old(self)@).0);
        Request::Finish(outcome)
    }

    /// Goes on until a file has to be touched, or the commit is over.
    fn settle(&mut self) -> (request: Request)
        requires
            old(self).parts_wf(),
            settling(old(self)@),
        ensures
            final(self).parts_wf(),
            final(self)@ == settle(old(self)@).0,
            request@ == settle(old(self)@).1,
    {
        while self.puts.len() > 0
            invariant
                self.parts_wf(),
                settling(self@),
                settle(self@) == settle(old(self)@),
            decreases self.puts.len(),
        {
            let ghost prev = self@;
            let r = reference_of(self.puts[0].as_slice());
            if self.store.contains(r) {
                let payload = self.puts.remove(0);
                self.store.put(payload.as_slice());
                proof {
                    let next = State {
                        blobs: after_put(prev.blobs, prev.puts[0]),
                        puts: prev.puts.skip(1),
                        ..prev
                    };
                    assert(self@.puts =~= prev.puts.skip(1));
                    assert(self@ =~= next);
                    lemma_growth_keeps_no_dangling(prev.blobs, next.blobs, prev.manifests);
                }
            } else {
                let payload = copy_bytes(self.puts[0].as_slice());
                self.pending = Pending::BlobWrite;
                assert(self@ =~= State { pending: Pending::BlobWrite, ..prev });
                return Request::WriteBlob { reference: r, payload };
            }
        }
        while self.banks.len() > 0
            invariant
                self.parts_wf(),
                settling(self@),
                self@.puts.len() == 0,
                settle(self@) == settle(old(self)@),
            decreases self.banks.len(),
        {
            let ghost prev = self@;
            proof {
                lemma_rest_wf(prev.banks);
                assert(prev.banks[0].bank.wf());
            }
            if self.aborted {
                let entry = self.banks.remove(0);
                self.failed.push(BankFailure { bank: entry.name, cause: Cause::Aborted });
                proof {
                    let next = State {
                        banks: prev.banks.skip(1),
                        failed: prev.failed.push(
                            FailureView { bank: prev.banks[0].name, cause: Cause::Aborted },
                        ),
                        ..prev
                    };
                    assert(self@.banks =~= next.banks);
                    assert(self@.failed =~= next.failed);
                    assert(self@ =~= next);
                }
            } else {
                match dangling(&self.store, &self.banks[0].bank) {
                    Some(r) => {
                        let entry = self.banks.remove(0);
                        self.failed.push(BankFailure { bank: entry.name, cause: Cause::Dangling(r) });
                        proof {
                            let next = State {
                                banks: prev.banks.skip(1),
                                failed: prev.failed.push(
                                    FailureView {
                                        bank: prev.banks[0].name,
                                        cause: Cause::Dangling(r),
                                    },
                                ),
                                ..prev
                            };
                            assert(self@.banks =~= next.banks);
                            assert(self@.failed =~= next.failed);
                            assert(self@ =~= next);
                        }
                    },
                    None => {
                        let bank: String = self.banks[0].name.clone();
                        let bytes = self.banks[0].bank.to_manifest();
                        self.pending = Pending::TempWrite;
                        assert(self@ =~= State { pending: Pending::TempWrite, ..prev });
                        return Request::WriteTemp { bank, bytes };
                    },
                }
            }
        }
        self.finish()
    }

    /// Begins to commit the open transaction and says what to do first.
    pub fn commit(&mut self) -> (answer: Result<Request, Error>)
        requires
            old(self).wf(),
        ensures
            final(self).wf(),
            match old(self)@.phase {
                Phase::Open => answer matches Ok(request) && final(self)@ == begin(old(self)@).0
                    && request@ == begin(old(self)@).1,
                Phase::Idle => answer == Err::<Request, Error>(
                    Error::NotFound(Missing::Transaction),
                ) && final(self)@ == old(self)@,
                Phase::Committing => answer == Err::<Request, Error>(Error::AlreadyOpen)
                    && final(self)@ == old(self)@,
            },
    {
        match self.phase {
            Phase::Idle => Err(Error::NotFound(Missing::Transaction)),
            Phase::Committing => Err(Error::AlreadyOpen),
            Phase::Open => {
                proof {
                    lemma_begin_consistent(self@);
                }
                self.phase = Phase::Committing;
                assert(self@ =~= State { phase: Phase::Committing, ..old(self)@ });
                Ok(self.settle())
            },
        }
    }

    /// Takes the result of the request that was handed out last, and says
    /// what to do next.
    pub fn advance(&mut self, result: IoResult) -> (answer: Result<Request, Error>)
        requires
            old(self).wf(),
        ensures
            final(self).wf(),
            old(self)@.phase == Phase::Committing ==> (answer matches Ok(request) && final(self)@
                == advance(old(self)@, result).0 && request@ == advance(old(self)@, result).1),
            old(self)@.phase != Phase::Committing ==> answer == Err::<Request, Error>(
                Error::NotFound(Missing::Transaction),
            ) && final(self)@ == old(self)@,
    {
        match self.phase {
            Phase::Committing => {},
            _ => {
                return Err(Error::NotFound(Missing::Transaction));
            },
        }
        let ghost prev = self@;
        proof {
            lemma_advance_consistent(prev, result);
        }
        match self.pending {
            Pending::Nothing => {
                // A commit under way always waits for a result.
                assert(false);
                Err(Error::NotFound(Missing::Transaction))
            },
            Pending::BlobWrite => match result {
                IoResult::Done => {
                    let payload = self.puts.remove(0);
                    self.store.put(payload.as_slice());
                    self.pending = Pending::Nothing;
                    proof {
                        let next = State {
                            blobs: after_put(prev.blobs, prev.puts[0]),
                            puts: prev.puts.skip(1),
                            pending: Pending::Nothing,
                            ..prev
                        };
                        assert(self@.puts =~= prev.puts.skip(1));
                        assert(self@ =~= next);
                        lemma_growth_keeps_no_dangling(prev.blobs, next.blobs, prev.manifests);
                    }
                    Ok(self.settle())
                },
                IoResult::Failed(f) => {
                    let reference = reference_of(self.puts[0].as_slice());
                    let cause = Cause::EntityWrite { reference, failure: f };
                    let mut left_out: Vec<BankFailure> = Vec::new();
                    while self.banks.len() > 0
                        invariant
                            self.parts_wf(),
                            self@.blobs == prev.blobs,
                            self@.manifests == prev.manifests,
                            failures_of(left_out@) + fail_all(self@.banks, cause) == fail_all(
                                prev.banks,
                                cause,
                            ),
                        decreases self.banks.len(),
                    {
                        let ghost at = self@;
                        let ghost before = failures_of(left_out@);
                        let entry = self.banks.remove(0);
                        left_out.push(BankFailure { bank: entry.name, cause });
                        proof {
                            assert(self@.banks =~= at.banks.skip(1));
                            assert(failures_of(left_out@) =~= before.push(
                                FailureView { bank: at.banks[0].name, cause },
                            ));
                            assert(failures_of(left_out@) + fail_all(self@.banks, cause)
                                =~= before + fail_all(at.banks, cause));
                        }
                    }
                    self.puts = Vec::new();
                    self.releases = Vec::new();
                    self.committed = Vec::new();
                    self.failed = Vec::new();
                    self.phase = Phase::Idle;
                    self.pending = Pending::Nothing;
                    self.aborted = false;
                    proof {
                        assert(failures_of(left_out@) =~= failures_of(left_out@) + fail_all(
                            self@.banks,
                            cause,
                        ));
                        assert(self@ =~= without_transaction(prev));
                    }
                    Ok(Request::Finish(Outcome::EntityWriteFailed { reference, failure: f, left_out }))
                },
            },
            Pending::TempWrite => match result {
                IoResult::Done => {
                    let bank: String = self.banks[0].name.clone();
                    self.pending = Pending::Rename;
                    assert(self@ =~= State { pending: Pending::Rename, ..prev });
                    Ok(Request::Rename { bank })
                },
                IoResult::Failed(f) => {
                    let bank: String = self.banks[0].name.clone();
                    let again: String = self.banks[0].name.clone();
                    self.failed.push(BankFailure { bank, cause: Cause::TempWrite(f) });
                    self.pending = Pending::TempRemoval;
                    proof {
                        let next = State {
                            pending: Pending::TempRemoval,
                            failed: prev.failed.push(
                                FailureView { bank: prev.banks[0].name, cause: Cause::TempWrite(f) },
                            ),
                            ..prev
                        };
                        assert(self@.failed =~= next.failed);
                        assert(self@ =~= next);
                    }
                    Ok(Request::RemoveTemp { bank: again })
                },
            },
            Pending::Rename => match result {
                IoResult::Done => {
                    let entry = self.banks.remove(0);
                    self.manager.save(entry.name.as_str(), &entry.bank);
                    self.committed.push(entry.name);
                    self.pending = Pending::Nothing;
                    proof {
                        let head = prev.banks[0];
                        let next = State {
                            manifests: prev.manifests.insert(
                                head.name,
                                crate::manifest::encode(head.bank),
                            ),
                            committed: prev.committed.push(head.name),
                            banks: prev.banks.skip(1),
                            pending: Pending::Nothing,
                            ..prev
                        };
                        assert(self@.banks =~= next.banks);
                        assert(self@.committed =~= next.committed);
                        assert(self@ =~= next);
                        lemma_rest_wf(prev.banks);
                        lemma_decode_encode(head.bank);
                        assert forall|name: Seq<char>, r: Reference| #[trigger]
                            refers(next.manifests, name, r) implies next.blobs.contains_key(r) by {
                            if name == head.name {
                                assert(head.bank.names(r));
                            } else {
                                assert(refers(prev.manifests, name, r));
                            }
                        }
                    }
                    Ok(self.settle())
                },
                IoResult::Failed(f) => {
                    let bank: String = self.banks[0].name.clone();
                    let again: String = self.banks[0].name.clone();
                    self.failed.push(BankFailure { bank, cause: Cause::Rename(f) });
                    self.pending = Pending::TempRemoval;
                    proof {
                        let next = State {
                            pending: Pending::TempRemoval,
                            failed: prev.failed.push(
                                FailureView { bank: prev.banks[0].name, cause: Cause::Rename(f) },
                            ),
                            ..prev
                        };
                        assert(self@.failed =~= next.failed);
                        assert(self@ =~= next);
                    }
                    Ok(Request::RemoveTemp { bank: again })
                },
            },
            Pending::TempRemoval => {
                let _ = self.banks.remove(0);
                self.pending = Pending::Nothing;
                proof {
                    let next = State {
                        banks: prev.banks.skip(1),
                        pending: Pending::Nothing,
                        ..prev
                    };
                    assert(self@.banks =~= next.banks);
                    assert(self@ =~= next);
                    lemma_rest_wf(prev.banks);
                }
                Ok(self.settle())
            },
        }
    }

    /// Takes in a payload found on disk at startup. Its use count starts
    /// at zero and grows as manifests that name it are taken in.
    pub fn adopt_entity(&mut self, payload: &[u8]) -> (result: Result<Reference, Error>)
        requires
            old(self).wf(),
        ensures
            final(self).wf(),
            old(self)@.phase == Phase::Idle ==> result == Ok::<Reference, Error>(
                reference_spec(payload@),
            ) && final(self)@ == with_entity(old(self)@, payload@),
            old(self)@.phase != Phase::Idle ==> result == Err::<Reference, Error>(
                Error::AlreadyOpen,
            ) && final(self)@ == old(self)@,
    {
        match self.phase {
            Phase::Idle => {
                let r = self.store.adopt(payload);
                proof {
                    assert(self@ =~= with_entity(old(self)@, payload@));
                    assert(crate::protocol::keeps(old(self)@.blobs, self@.blobs));
                    lemma_growth_keeps_no_dangling(
                        old(self)@.blobs,
                        self@.blobs,
                        old(self)@.manifests,
                    );
                }
                Ok(r)
            },
            _ => Err(Error::AlreadyOpen),
        }
    }

    /// Takes in a manifest found on disk at startup, as the live manifest
    /// of the bank of this name. One that parses must name only entities
    /// that were taken in before; each of its occupied slots then counts
    /// as one use. One that does not parse is kept as it is, and loading
    /// the bank reports it. Where a bank of the name exists already, its
    /// manifest is replaced, and the uses counted for it stay counted.
    pub fn adopt_bank(&mut self, name: &str, bytes: &[u8]) -> (result: Result<(), Error>)
        requires
            old(self).wf(),
        ensures
            final(self).wf(),
            adoption_answer(old(self)@, bytes@, result),
            final(self)@ == if result is Ok {
                with_manifest(old(self)@, name@, bytes@)
            } else {
                old(self)@
            },
    {
        match self.phase {
            Phase::Idle => {},
            _ => {
                return Err(Error::AlreadyOpen);
            },
        }
        match Bank::from_manifest(bytes) {
            Some(bank) => {
                match dangling(&self.store, &bank) {
                    Some(r) => {
                        return Err(Error::NotFound(Missing::Entity(r)));
                    },
                    None => {},
                }
                count_uses(&mut self.store, &bank);
                proof {
                    lemma_first_dangling(old(self)@.blobs, bank@.slots);
                    lemma_hold_all_keeps_domain(old(self)@.blobs, bank@.slots);
                }
            },
            None => {},
        }
        self.manager.install(name, bytes);
        proof {
            let prev = old(self)@;
            let next = with_manifest(prev, name@, bytes@);
            assert(self@ =~= next);
            self.store.lemma_content_addressed();
            assert(next.blobs.dom() == prev.blobs.dom());
            assert forall|other: Seq<char>, r: Reference| #[trigger]
                refers(next.manifests, other, r) implies next.blobs.contains_key(r) by {
                if other == name@ {
                    assert(decode(bytes@)->0.names(r));
                    assert(prev.blobs.contains_key(r));
                } else {
                    assert(refers(prev.manifests, other, r));
                    assert(prev.blobs.contains_key(r));
                }
                assert(prev.blobs.dom().contains(r));
            }
        }
        Ok(())
    }

    /// Deletes every stored entity whose use count is zero and which no
    /// live manifest names, and returns the references deleted, so that
    /// the caller can delete their files. Refused while a transaction is
    /// open.
    pub fn delete_unreferenced(&mut self) -> (result: Result<Vec<Reference>, Error>)
        requires
            old(self).wf(),
        ensures
            final(self).wf(),
            match result {
                Ok(removed) => old(self)@.phase == Phase::Idle && final(self)@ == after_sweeping(
                    old(self)@,
                ) && removed@.no_duplicates() && forall|r: Reference|
                    removed@.contains(r) <==> swept(
                        old(self)@.blobs,
                        spared(old(self)@.manifests),
                        r,
                    ),
                Err(e) => old(self)@.phase != Phase::Idle && e == Error::AlreadyOpen && final(self)@
                    == old(self)@,
            },
    {
        match self.phase {
            Phase::Idle => {},
            _ => {
                return Err(Error::AlreadyOpen);
            },
        }
        let keep = self.manager.named_references();
        assert(keep@.to_set() =~= spared(self@.manifests));
        let removed = self.store.delete_unreferenced_keeping(&keep);
        proof {
            lemma_sweep_consistent(old(self)@);
            assert(self@ =~= after_sweeping(old(self)@));
        }
        Ok(removed)
    }

    /// Gives up the open transaction. This always succeeds. Before a
    /// commit has begun, all that was staged is dropped; no file was
    /// touched. Once a commit is under way, the bank in progress is
    /// finished and the banks not yet begun are left out.
    pub fn rollback(&mut self) -> (done: Rollback)
        requires
            old(self).wf(),
        ensures
            final(self).wf(),
            match old(self)@.phase {
                Phase::Idle => done == Rollback::NothingOpen && final(self)@ == old(self)@,
                Phase::Open => done == Rollback::Discarded && final(self)@ == without_transaction(old(self)@),
                Phase::Committing => done == Rollback::Aborting && final(self)@ == aborting(
                    old(self)@,
                ),
            },
    {
        match self.phase {
            Phase::Idle => Rollback::NothingOpen,
            Phase::Open => {
                self.phase = Phase::Idle;
                self.puts = Vec::new();
                self.releases = Vec::new();
                self.banks = Vec::new();
                assert(self@ =~= without_transaction(old(self)@));
                Rollback::Discarded
            },
            Phase::Committing => {
                self.aborted = true;
                assert(self@ =~= aborting(old(self)@));
                Rollback::Aborting
            },
        }
    }
}

/// Whether `result` is the answer to an edit of the bank of this name: a
/// missing transaction first, then a bank that cannot be had, then an
/// address that the bank lacks; else what the edit hands back.
pub open spec fn edit_answer(
    s: State,
    name: Seq<char>,
    edit: SlotEdit,
    result: Result<Option<Reference>, Error>,
) -> bool {
    if s.phase != Phase::Open {
        result == Err::<Option<Reference>, Error>(Error::NotFound(Missing::Transaction))
    } else {
        match working(s, name) {
            None => result matches Err(e) && if s.manifests.contains_key(name) {
                is_corrupt_manifest(e, name)
            } else {
                is_missing_bank(e, name)
            },
            Some(bank) => match edit_refusal(bank, edit) {
                Some((box_idx, position)) => result == Err::<Option<Reference>, Error>(
                    Error::NotFound(Missing::Slot { box_idx, position }),
                ),
                None => result == Ok::<Option<Reference>, Error>(edit_yield(bank, edit)),
            },
        }
    }
}

/// Whether `result` is the answer to taking in a manifest: refused while
/// a transaction is open, and refused if the manifest parses and names an
/// entity that the store does not hold, the first such being reported.
pub open spec fn adoption_answer(s: State, bytes: Seq<u8>, result: Result<(), Error>) -> bool {
    if s.phase != Phase::Idle {
        result == Err::<(), Error>(Error::AlreadyOpen)
    } else {
        match decode(bytes) {
            Some(bank) => match first_dangling(s.blobs, bank.slots) {
                Some(r) => result == Err::<(), Error>(Error::NotFound(Missing::Entity(r))),
                None => result == Ok::<(), Error>(()),
            },
            None => result == Ok::<(), Error>(()),
        }
    }
}

} // verus!
