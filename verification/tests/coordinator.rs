use openhome_core::bank::{Bank, SlotEdit};
use openhome_core::coordinator::{BankFailure, Coordinator, Outcome, Request, Rollback};
use openhome_core::digest::{reference_of, Reference};
use openhome_core::error::{Cause, Damaged, Error, IoFailure, Missing};
use openhome_core::protocol::{IoResult, Phase};

/// Files as a caller would keep them, with failures to order.
#[derive(Default)]
struct Disk {
    blobs: Vec<(Reference, Vec<u8>)>,
    live: Vec<(String, Vec<u8>)>,
    temp: Vec<(String, Vec<u8>)>,
    fail_blob: Option<IoFailure>,
    fail_temp: Vec<(String, IoFailure)>,
    fail_rename: Vec<(String, IoFailure)>,
    log: Vec<String>,
}

impl Disk {
    fn perform(&mut self, request: &Request) -> IoResult {
        match request {
            Request::WriteBlob { reference, payload } => {
                self.log.push(format!("blob {:016x}", reference.digest));
                if let Some(f) = self.fail_blob {
                    return IoResult::Failed(f);
                }
                self.blobs.retain(|(r, _)| r != reference);
                self.blobs.push((*reference, payload.clone()));
                IoResult::Done
            }
            Request::WriteTemp { bank, bytes } => {
                self.log.push(format!("temp {bank}"));
                if let Some((_, f)) = self.fail_temp.iter().find(|(b, _)| b == bank) {
                    return IoResult::Failed(*f);
                }
                self.temp.retain(|(b, _)| b != bank);
                self.temp.push((bank.clone(), bytes.clone()));
                IoResult::Done
            }
            Request::Rename { bank } => {
                self.log.push(format!("rename {bank}"));
                if let Some((_, f)) = self.fail_rename.iter().find(|(b, _)| b == bank) {
                    return IoResult::Failed(*f);
                }
                let at = self.temp.iter().position(|(b, _)| b == bank).unwrap();
                let (_, bytes) = self.temp.remove(at);
                self.live.retain(|(b, _)| b != bank);
                self.live.push((bank.clone(), bytes));
                IoResult::Done
            }
            Request::RemoveTemp { bank } => {
                self.log.push(format!("remove {bank}"));
                self.temp.retain(|(b, _)| b != bank);
                IoResult::Done
            }
            Request::Finish(_) => unreachable!(),
        }
    }

    fn live_bytes(&self, bank: &str) -> Option<&Vec<u8>> {
        self.live.iter().find(|(b, _)| b == bank).map(|(_, bytes)| bytes)
    }

    /// What a restart builds from the files.
    fn reopen(&self) -> Coordinator {
        let mut coordinator = Coordinator::new();
        for (_, payload) in &self.blobs {
            coordinator.adopt_entity(payload).unwrap();
        }
        for (bank, bytes) in &self.live {
            coordinator.adopt_bank(bank, bytes).unwrap();
        }
        coordinator
    }
}

fn run_commit(coordinator: &mut Coordinator, disk: &mut Disk) -> Outcome {
    let mut request = coordinator.commit().unwrap();
    loop {
        match request {
            Request::Finish(outcome) => return outcome,
            other => {
                let result = disk.perform(&other);
                request = coordinator.advance(result).unwrap();
            }
        }
    }
}

fn with_bank1(disk: &mut Disk) -> Coordinator {
    let mut coordinator = Coordinator::new();
    coordinator.start_transaction().unwrap();
    coordinator.stage_bank("BANK1", Bank::new(2, 3).unwrap()).unwrap();
    let outcome = run_commit(&mut coordinator, disk);
    assert_eq!(outcome, Outcome::Committed { banks: vec!["BANK1".to_string()] });
    coordinator
}

fn no_transaction<T>() -> Result<T, Error> {
    Err(Error::NotFound(Missing::Transaction))
}

#[test]
fn new_coordinator_is_idle_and_empty() {
    let coordinator = Coordinator::new();
    assert_eq!(coordinator.phase(), Phase::Idle);
    assert_eq!(
        coordinator.load("BANK1"),
        Err(Error::NotFound(Missing::Bank("BANK1".to_string())))
    );
    let r = reference_of(b"PIKA");
    assert_eq!(coordinator.get(r), Err(Error::NotFound(Missing::Entity(r))));
}

#[test]
fn second_start_is_refused_and_the_first_stays_open() {
    let mut coordinator = Coordinator::new();
    assert_eq!(coordinator.start_transaction(), Ok(()));
    assert_eq!(coordinator.phase(), Phase::Open);
    assert_eq!(coordinator.start_transaction(), Err(Error::AlreadyOpen));
    assert_eq!(coordinator.phase(), Phase::Open);
    assert_eq!(coordinator.put(b"PIKA"), Ok(reference_of(b"PIKA")));
}

#[test]
fn start_after_rollback_and_after_commit_succeeds() {
    let mut disk = Disk::default();
    let mut coordinator = Coordinator::new();
    coordinator.start_transaction().unwrap();
    assert_eq!(coordinator.rollback(), Rollback::Discarded);
    assert_eq!(coordinator.start_transaction(), Ok(()));
    let outcome = run_commit(&mut coordinator, &mut disk);
    assert_eq!(outcome, Outcome::Committed { banks: vec![] });
    assert_eq!(coordinator.phase(), Phase::Idle);
    assert_eq!(coordinator.start_transaction(), Ok(()));
}

#[test]
fn committed_put_and_slot_are_seen_by_readers() {
    let mut disk = Disk::default();
    let mut coordinator = with_bank1(&mut disk);
    assert_eq!(coordinator.load("BANK1").unwrap().slot(0, 0), Ok(None));

    coordinator.start_transaction().unwrap();
    let r = coordinator.put(b"PIKA").unwrap();
    assert_eq!(coordinator.set_slot("BANK1", 0, 0, Some(r)), Ok(None));
    let outcome = run_commit(&mut coordinator, &mut disk);

    assert_eq!(outcome, Outcome::Committed { banks: vec!["BANK1".to_string()] });
    assert_eq!(coordinator.load("BANK1").unwrap().slot(0, 0), Ok(Some(r)));
    assert_eq!(coordinator.get(r).unwrap().as_slice(), b"PIKA");
    assert_eq!(coordinator.phase(), Phase::Idle);
    assert_eq!(disk.blobs, vec![(r, b"PIKA".to_vec())]);
    assert_eq!(Bank::from_manifest(disk.live_bytes("BANK1").unwrap()).unwrap().slot(0, 0), Ok(Some(r)));
    assert!(disk.temp.is_empty());
}

#[test]
fn rolled_back_put_and_slot_leave_no_trace() {
    let mut disk = Disk::default();
    let mut coordinator = with_bank1(&mut disk);
    let files_before = disk.live.clone();

    coordinator.start_transaction().unwrap();
    let r = coordinator.put(b"PIKA").unwrap();
    assert_eq!(coordinator.set_slot("BANK1", 0, 0, Some(r)), Ok(None));
    assert_eq!(coordinator.rollback(), Rollback::Discarded);

    assert_eq!(coordinator.load("BANK1").unwrap().slot(0, 0), Ok(None));
    assert_eq!(coordinator.get(r), Err(Error::NotFound(Missing::Entity(r))));
    assert_eq!(coordinator.phase(), Phase::Idle);
    assert_eq!(disk.live, files_before);
    assert!(disk.blobs.is_empty());
    assert_eq!(coordinator.commit(), no_transaction());
}

#[test]
fn rollback_with_nothing_open_or_nothing_staged_succeeds() {
    let mut coordinator = Coordinator::new();
    assert_eq!(coordinator.rollback(), Rollback::NothingOpen);
    assert_eq!(coordinator.phase(), Phase::Idle);
    coordinator.start_transaction().unwrap();
    assert_eq!(coordinator.rollback(), Rollback::Discarded);
    assert_eq!(coordinator.rollback(), Rollback::NothingOpen);
}

#[test]
fn staged_changes_are_not_seen_before_the_commit() {
    let mut disk = Disk::default();
    let mut coordinator = with_bank1(&mut disk);
    coordinator.start_transaction().unwrap();
    let r = coordinator.put(b"PIKA").unwrap();
    coordinator.set_slot("BANK1", 1, 2, Some(r)).unwrap();
    coordinator.stage_bank("BANK2", Bank::new(1, 1).unwrap()).unwrap();

    assert_eq!(coordinator.load("BANK1").unwrap().slot(1, 2), Ok(None));
    assert_eq!(coordinator.get(r), Err(Error::NotFound(Missing::Entity(r))));
    assert_eq!(
        coordinator.load("BANK2"),
        Err(Error::NotFound(Missing::Bank("BANK2".to_string())))
    );
    assert_eq!(coordinator.working_copy("BANK1").unwrap().slot(1, 2), Ok(Some(r)));
    assert_eq!(coordinator.working_copy("BANK2"), Ok(Bank::new(1, 1).unwrap()));
}

#[test]
fn staging_without_a_transaction_is_refused() {
    let mut disk = Disk::default();
    let mut coordinator = with_bank1(&mut disk);
    assert_eq!(coordinator.put(b"PIKA"), no_transaction());
    assert_eq!(coordinator.release(reference_of(b"PIKA")), no_transaction());
    assert_eq!(coordinator.release(Reference { digest: 0 }), no_transaction());
    assert_eq!(coordinator.stage_bank("BANK1", Bank::new(1, 1).unwrap()), no_transaction());
    assert_eq!(coordinator.set_slot("BANK1", 0, 0, None), no_transaction());
    assert_eq!(coordinator.move_slot("BANK1", 0, 0, 0, 1), no_transaction());
    assert_eq!(coordinator.swap_slots("BANK1", 0, 0, 0, 1), no_transaction());
    assert_eq!(coordinator.commit(), no_transaction());
    assert_eq!(coordinator.advance(IoResult::Done), no_transaction());
    assert_eq!(coordinator.load("BANK1"), Ok(Bank::new(2, 3).unwrap()));
}

#[test]
fn edit_of_a_bank_that_cannot_be_had_is_refused() {
    let mut coordinator = Coordinator::new();
    coordinator.adopt_bank("BROKEN", b"junk").unwrap();
    coordinator.start_transaction().unwrap();
    assert_eq!(
        coordinator.set_slot("NOPE", 0, 0, None),
        Err(Error::NotFound(Missing::Bank("NOPE".to_string())))
    );
    assert_eq!(
        coordinator.set_slot("BROKEN", 0, 0, None),
        Err(Error::Corrupt(Damaged::Manifest("BROKEN".to_string())))
    );
    assert_eq!(
        coordinator.working_copy("BROKEN"),
        Err(Error::Corrupt(Damaged::Manifest("BROKEN".to_string())))
    );
    let mut disk = Disk::default();
    assert_eq!(run_commit(&mut coordinator, &mut disk), Outcome::Committed { banks: vec![] });
    assert!(disk.log.is_empty());
}

#[test]
fn edit_outside_the_bank_is_refused_and_stages_nothing() {
    let mut disk = Disk::default();
    let mut coordinator = with_bank1(&mut disk);
    disk.log.clear();
    coordinator.start_transaction().unwrap();
    assert_eq!(
        coordinator.set_slot("BANK1", 2, 0, None),
        Err(Error::NotFound(Missing::Slot { box_idx: 2, position: 0 }))
    );
    assert_eq!(
        coordinator.edit("BANK1", SlotEdit::Move { from_box: 0, from_position: 0, to_box: 0, to_position: 9 }),
        Err(Error::NotFound(Missing::Slot { box_idx: 0, position: 9 }))
    );
    assert_eq!(run_commit(&mut coordinator, &mut disk), Outcome::Committed { banks: vec![] });
    assert!(disk.log.is_empty());
}

#[test]
fn moves_and_swaps_are_staged_on_the_working_copy() {
    let mut disk = Disk::default();
    let mut coordinator = with_bank1(&mut disk);
    coordinator.start_transaction().unwrap();
    let a = coordinator.put(b"A").unwrap();
    let b = coordinator.put(b"B").unwrap();
    assert_eq!(coordinator.set_slot("BANK1", 0, 0, Some(a)), Ok(None));
    assert_eq!(coordinator.set_slot("BANK1", 0, 1, Some(b)), Ok(None));
    assert_eq!(coordinator.swap_slots("BANK1", 0, 0, 0, 1), Ok(None));
    assert_eq!(coordinator.move_slot("BANK1", 0, 0, 1, 2), Ok(None));
    assert_eq!(coordinator.move_slot("BANK1", 0, 1, 1, 2), Ok(Some(b)));
    let outcome = run_commit(&mut coordinator, &mut disk);
    assert_eq!(outcome, Outcome::Committed { banks: vec!["BANK1".to_string()] });
    let bank = coordinator.load("BANK1").unwrap();
    assert_eq!(bank.slot(0, 0), Ok(None));
    assert_eq!(bank.slot(0, 1), Ok(None));
    assert_eq!(bank.slot(1, 2), Ok(Some(a)));
}

#[test]
fn commit_asks_for_blobs_then_temp_then_rename() {
    let mut disk = Disk::default();
    let mut coordinator = with_bank1(&mut disk);
    disk.log.clear();
    coordinator.start_transaction().unwrap();
    let r = coordinator.put(b"PIKA").unwrap();
    coordinator.set_slot("BANK1", 0, 0, Some(r)).unwrap();

    let first = coordinator.commit().unwrap();
    assert_eq!(first, Request::WriteBlob { reference: r, payload: b"PIKA".to_vec() });
    assert_eq!(coordinator.phase(), Phase::Committing);
    let second = coordinator.advance(IoResult::Done).unwrap();
    let mut expected = Bank::new(2, 3).unwrap();
    expected.set_slot(0, 0, Some(r)).unwrap();
    assert_eq!(
        second,
        Request::WriteTemp { bank: "BANK1".to_string(), bytes: expected.to_manifest() }
    );
    let third = coordinator.advance(IoResult::Done).unwrap();
    assert_eq!(third, Request::Rename { bank: "BANK1".to_string() });
    let last = coordinator.advance(IoResult::Done).unwrap();
    assert_eq!(
        last,
        Request::Finish(Outcome::Committed { banks: vec!["BANK1".to_string()] })
    );
    assert_eq!(coordinator.phase(), Phase::Idle);
}

#[test]
fn payload_put_twice_is_written_once() {
    let mut disk = Disk::default();
    let mut coordinator = Coordinator::new();
    coordinator.start_transaction().unwrap();
    let first = coordinator.put(b"PIKA").unwrap();
    let second = coordinator.put(b"PIKA").unwrap();
    assert_eq!(first, second);
    run_commit(&mut coordinator, &mut disk);
    assert_eq!(disk.log, vec![format!("blob {:016x}", first.digest)]);
    assert_eq!(disk.blobs.len(), 1);

    coordinator.start_transaction().unwrap();
    coordinator.put(b"PIKA").unwrap();
    disk.log.clear();
    run_commit(&mut coordinator, &mut disk);
    assert!(disk.log.is_empty());
    assert_eq!(disk.blobs.len(), 1);
}

#[test]
fn kill_between_temp_write_and_rename_leaves_the_live_manifest() {
    let mut disk = Disk::default();
    let mut coordinator = with_bank1(&mut disk);
    let before = disk.live_bytes("BANK1").unwrap().clone();

    coordinator.start_transaction().unwrap();
    let r = coordinator.put(b"PIKA").unwrap();
    coordinator.set_slot("BANK1", 0, 0, Some(r)).unwrap();
    let mut request = coordinator.commit().unwrap();
    loop {
        let result = disk.perform(&request);
        request = coordinator.advance(result).unwrap();
        if matches!(request, Request::Rename { .. }) {
            break;
        }
    }
    assert_eq!(coordinator.load("BANK1").unwrap().slot(0, 0), Ok(None));
    drop(coordinator);

    assert_eq!(disk.live_bytes("BANK1"), Some(&before));
    let restarted = disk.reopen();
    assert_eq!(restarted.phase(), Phase::Idle);
    assert_eq!(restarted.load("BANK1"), Ok(Bank::new(2, 3).unwrap()));
    assert_eq!(restarted.get(r).unwrap().as_slice(), b"PIKA");
}

#[test]
fn failed_rename_leaves_that_bank_and_commits_the_others() {
    let mut disk = Disk::default();
    let mut coordinator = with_bank1(&mut disk);
    coordinator.start_transaction().unwrap();
    let r = coordinator.put(b"PIKA").unwrap();
    coordinator.stage_bank("FIRST", Bank::new(1, 1).unwrap()).unwrap();
    coordinator.set_slot("BANK1", 0, 0, Some(r)).unwrap();
    coordinator.stage_bank("LAST", Bank::new(1, 2).unwrap()).unwrap();
    coordinator.release(r).unwrap();
    disk.fail_rename.push(("BANK1".to_string(), IoFailure::PermissionDenied));
    disk.log.clear();

    let outcome = run_commit(&mut coordinator, &mut disk);

    assert_eq!(
        outcome,
        Outcome::PartialCommit {
            committed: vec!["FIRST".to_string(), "LAST".to_string()],
            failed: vec![BankFailure {
                bank: "BANK1".to_string(),
                cause: Cause::Rename(IoFailure::PermissionDenied),
            }],
        }
    );
    assert_eq!(coordinator.load("FIRST"), Ok(Bank::new(1, 1).unwrap()));
    assert_eq!(coordinator.load("LAST"), Ok(Bank::new(1, 2).unwrap()));
    assert_eq!(coordinator.load("BANK1"), Ok(Bank::new(2, 3).unwrap()));
    assert_eq!(coordinator.get(r).unwrap().as_slice(), b"PIKA");
    assert_eq!(coordinator.phase(), Phase::Idle);
    assert!(disk.temp.is_empty());
    assert_eq!(
        disk.log,
        vec![
            format!("blob {:016x}", r.digest),
            "temp FIRST".to_string(),
            "rename FIRST".to_string(),
            "temp BANK1".to_string(),
            "rename BANK1".to_string(),
            "remove BANK1".to_string(),
            "temp LAST".to_string(),
            "rename LAST".to_string(),
        ]
    );
    // the release was not applied: the entity keeps its use
    assert_eq!(coordinator.delete_unreferenced(), Ok(vec![]));
    assert!(coordinator.get(r).is_ok());
}

#[test]
fn full_disk_on_the_temporary_file_leaves_the_bank() {
    let mut disk = Disk::default();
    let mut coordinator = with_bank1(&mut disk);
    coordinator.start_transaction().unwrap();
    coordinator.set_slot("BANK1", 0, 0, None).unwrap();
    disk.fail_temp.push(("BANK1".to_string(), IoFailure::DiskFull));
    disk.log.clear();
    let outcome = run_commit(&mut coordinator, &mut disk);
    match outcome {
        Outcome::PartialCommit { committed, mut failed } => {
            assert!(committed.is_empty());
            assert_eq!(failed.len(), 1);
            assert_eq!(
                failed.remove(0).into_error(),
                Error::CommitFailed {
                    bank: "BANK1".to_string(),
                    cause: Cause::TempWrite(IoFailure::DiskFull),
                }
            );
        }
        other => panic!("unexpected outcome {other:?}"),
    }
    assert_eq!(disk.log, vec!["temp BANK1".to_string(), "remove BANK1".to_string()]);
}

#[test]
fn failed_entity_write_leaves_every_bank() {
    let mut disk = Disk::default();
    let mut coordinator = with_bank1(&mut disk);
    coordinator.start_transaction().unwrap();
    let r = coordinator.put(b"PIKA").unwrap();
    coordinator.set_slot("BANK1", 0, 0, Some(r)).unwrap();
    coordinator.stage_bank("BANK2", Bank::new(1, 1).unwrap()).unwrap();
    disk.fail_blob = Some(IoFailure::Other);
    disk.log.clear();

    let outcome = run_commit(&mut coordinator, &mut disk);

    let cause = Cause::EntityWrite { reference: r, failure: IoFailure::Other };
    assert_eq!(
        outcome,
        Outcome::EntityWriteFailed {
            reference: r,
            failure: IoFailure::Other,
            left_out: vec![
                BankFailure { bank: "BANK1".to_string(), cause },
                BankFailure { bank: "BANK2".to_string(), cause },
            ],
        }
    );
    assert_eq!(disk.log, vec![format!("blob {:016x}", r.digest)]);
    assert_eq!(coordinator.load("BANK1"), Ok(Bank::new(2, 3).unwrap()));
    assert_eq!(coordinator.get(r), Err(Error::NotFound(Missing::Entity(r))));
    assert_eq!(coordinator.phase(), Phase::Idle);
}

#[test]
fn failed_entity_write_without_a_bank_is_not_committed() {
    let mut disk = Disk::default();
    let mut coordinator = Coordinator::new();
    coordinator.start_transaction().unwrap();
    let r = coordinator.put(b"PIKA").unwrap();
    disk.fail_blob = Some(IoFailure::DiskFull);

    let outcome = run_commit(&mut coordinator, &mut disk);

    assert_eq!(
        outcome,
        Outcome::EntityWriteFailed { reference: r, failure: IoFailure::DiskFull, left_out: vec![] }
    );
    assert_eq!(coordinator.get(r), Err(Error::NotFound(Missing::Entity(r))));
    assert_eq!(coordinator.references(), vec![]);
    assert_eq!(coordinator.phase(), Phase::Idle);
    assert!(disk.blobs.is_empty());
}

#[test]
fn failed_entity_write_applies_no_release() {
    let mut disk = Disk::default();
    let mut coordinator = Coordinator::new();
    coordinator.start_transaction().unwrap();
    let first = coordinator.put(b"FIRST").unwrap();
    assert_eq!(run_commit(&mut coordinator, &mut disk), Outcome::Committed { banks: vec![] });
    assert_eq!(coordinator.uses(first), Some(1));

    coordinator.start_transaction().unwrap();
    let second = coordinator.put(b"SECOND").unwrap();
    coordinator.release(first).unwrap();
    disk.fail_blob = Some(IoFailure::PermissionDenied);
    let outcome = run_commit(&mut coordinator, &mut disk);

    assert_eq!(
        outcome,
        Outcome::EntityWriteFailed {
            reference: second,
            failure: IoFailure::PermissionDenied,
            left_out: vec![],
        }
    );
    assert_eq!(coordinator.uses(first), Some(1));
    assert_eq!(coordinator.delete_unreferenced(), Ok(vec![]));
    assert_eq!(coordinator.get(first).unwrap().as_slice(), b"FIRST");
    assert_eq!(coordinator.get(second), Err(Error::NotFound(Missing::Entity(second))));
}

#[test]
fn failed_entity_write_keeps_what_was_written_before_it() {
    let mut disk = Disk::default();
    let mut coordinator = Coordinator::new();
    coordinator.start_transaction().unwrap();
    let first = coordinator.put(b"FIRST").unwrap();
    let second = coordinator.put(b"SECOND").unwrap();
    let third = coordinator.put(b"THIRD").unwrap();

    let request = coordinator.commit().unwrap();
    assert_eq!(request, Request::WriteBlob { reference: first, payload: b"FIRST".to_vec() });
    let request = coordinator.advance(disk.perform(&request)).unwrap();
    assert_eq!(request, Request::WriteBlob { reference: second, payload: b"SECOND".to_vec() });
    let request = coordinator.advance(IoResult::Failed(IoFailure::Other)).unwrap();

    assert_eq!(
        request,
        Request::Finish(Outcome::EntityWriteFailed {
            reference: second,
            failure: IoFailure::Other,
            left_out: vec![],
        })
    );
    assert_eq!(coordinator.get(first).unwrap().as_slice(), b"FIRST");
    assert!(coordinator.get(second).is_err());
    assert!(coordinator.get(third).is_err());
    assert_eq!(coordinator.phase(), Phase::Idle);
}

#[test]
fn bank_that_names_an_unknown_entity_is_left_out() {
    let mut disk = Disk::default();
    let mut coordinator = with_bank1(&mut disk);
    let ghost = Reference { digest: 404 };
    coordinator.start_transaction().unwrap();
    coordinator.set_slot("BANK1", 1, 1, Some(ghost)).unwrap();
    coordinator.stage_bank("BANK2", Bank::new(1, 1).unwrap()).unwrap();
    disk.log.clear();

    let outcome = run_commit(&mut coordinator, &mut disk);

    assert_eq!(
        outcome,
        Outcome::PartialCommit {
            committed: vec!["BANK2".to_string()],
            failed: vec![BankFailure { bank: "BANK1".to_string(), cause: Cause::Dangling(ghost) }],
        }
    );
    assert_eq!(disk.log, vec!["temp BANK2".to_string(), "rename BANK2".to_string()]);
    assert_eq!(coordinator.load("BANK1"), Ok(Bank::new(2, 3).unwrap()));
}

#[test]
fn every_reference_in_a_manifest_resolves_after_a_commit() {
    let mut disk = Disk::default();
    let mut coordinator = with_bank1(&mut disk);
    coordinator.start_transaction().unwrap();
    let a = coordinator.put(b"A").unwrap();
    let b = coordinator.put(b"B").unwrap();
    coordinator.set_slot("BANK1", 0, 0, Some(a)).unwrap();
    coordinator.set_slot("BANK1", 1, 2, Some(b)).unwrap();
    let mut other = Bank::new(1, 2).unwrap();
    other.set_slot(0, 1, Some(a)).unwrap();
    other.set_slot(0, 0, Some(Reference { digest: 1 })).unwrap();
    coordinator.stage_bank("BANK2", other).unwrap();
    disk.fail_rename.push(("BANK1".to_string(), IoFailure::Other));
    run_commit(&mut coordinator, &mut disk);

    for name in ["BANK1", "BANK2"] {
        if let Ok(bank) = coordinator.load(name) {
            for box_idx in 0..bank.boxes() {
                for position in 0..bank.positions() {
                    if let Some(r) = bank.slot(box_idx, position).unwrap() {
                        assert!(coordinator.get(r).is_ok());
                    }
                }
            }
        }
    }
    assert_eq!(
        coordinator.load("BANK2"),
        Err(Error::NotFound(Missing::Bank("BANK2".to_string())))
    );
    assert_eq!(coordinator.bank_names(), vec!["BANK1".to_string()]);
    assert_eq!(coordinator.references(), vec![a, b]);
    assert_eq!(coordinator.uses(a), Some(1));
    assert_eq!(coordinator.uses(Reference { digest: 1 }), None);
}

#[test]
fn rollback_during_a_commit_skips_the_banks_not_yet_begun() {
    let mut disk = Disk::default();
    let mut coordinator = Coordinator::new();
    coordinator.start_transaction().unwrap();
    coordinator.stage_bank("A", Bank::new(1, 1).unwrap()).unwrap();
    coordinator.stage_bank("B", Bank::new(1, 1).unwrap()).unwrap();
    coordinator.stage_bank("C", Bank::new(1, 1).unwrap()).unwrap();

    let mut request = coordinator.commit().unwrap();
    assert!(matches!(request, Request::WriteTemp { .. }));
    let result = disk.perform(&request);
    request = coordinator.advance(result).unwrap();
    assert_eq!(request, Request::Rename { bank: "A".to_string() });
    assert_eq!(coordinator.rollback(), Rollback::Aborting);
    assert_eq!(coordinator.phase(), Phase::Committing);
    let result = disk.perform(&request);
    request = coordinator.advance(result).unwrap();

    assert_eq!(
        request,
        Request::Finish(Outcome::PartialCommit {
            committed: vec!["A".to_string()],
            failed: vec![
                BankFailure { bank: "B".to_string(), cause: Cause::Aborted },
                BankFailure { bank: "C".to_string(), cause: Cause::Aborted },
            ],
        })
    );
    assert!(coordinator.load("A").is_ok());
    assert!(coordinator.load("B").is_err());
    assert_eq!(coordinator.phase(), Phase::Idle);
    assert_eq!(coordinator.start_transaction(), Ok(()));
}

#[test]
fn commit_and_start_during_a_commit_are_refused() {
    let mut coordinator = Coordinator::new();
    coordinator.start_transaction().unwrap();
    coordinator.put(b"PIKA").unwrap();
    assert!(matches!(coordinator.commit(), Ok(Request::WriteBlob { .. })));
    assert_eq!(coordinator.commit(), Err(Error::AlreadyOpen));
    assert_eq!(coordinator.start_transaction(), Err(Error::AlreadyOpen));
    assert_eq!(coordinator.put(b"CHU"), no_transaction());
    assert_eq!(coordinator.delete_unreferenced(), Err(Error::AlreadyOpen));
    assert_eq!(coordinator.adopt_entity(b"X"), Err(Error::AlreadyOpen));
    assert_eq!(coordinator.adopt_bank("B", b""), Err(Error::AlreadyOpen));
    assert_eq!(coordinator.phase(), Phase::Committing);
}

#[test]
fn release_takes_effect_after_a_clean_commit_and_sweep_deletes() {
    let mut disk = Disk::default();
    let mut coordinator = with_bank1(&mut disk);
    coordinator.start_transaction().unwrap();
    let r = coordinator.put(b"PIKA").unwrap();
    coordinator.set_slot("BANK1", 0, 0, Some(r)).unwrap();
    run_commit(&mut coordinator, &mut disk);
    assert_eq!(coordinator.delete_unreferenced(), Ok(vec![]));

    coordinator.start_transaction().unwrap();
    assert_eq!(coordinator.set_slot("BANK1", 0, 0, None), Ok(Some(r)));
    coordinator.release(r).unwrap();
    assert_eq!(coordinator.delete_unreferenced(), Err(Error::AlreadyOpen));
    run_commit(&mut coordinator, &mut disk);

    assert!(coordinator.get(r).is_ok());
    assert_eq!(coordinator.delete_unreferenced(), Ok(vec![r]));
    assert_eq!(coordinator.get(r), Err(Error::NotFound(Missing::Entity(r))));
    assert_eq!(coordinator.delete_unreferenced(), Ok(vec![]));
}

#[test]
fn sweep_spares_an_entity_that_a_manifest_still_names() {
    let mut disk = Disk::default();
    let mut coordinator = with_bank1(&mut disk);
    coordinator.start_transaction().unwrap();
    let r = coordinator.put(b"PIKA").unwrap();
    coordinator.set_slot("BANK1", 0, 0, Some(r)).unwrap();
    coordinator.release(r).unwrap();
    run_commit(&mut coordinator, &mut disk);

    assert_eq!(coordinator.delete_unreferenced(), Ok(vec![]));
    assert_eq!(coordinator.get(r).unwrap().as_slice(), b"PIKA");
    assert_eq!(coordinator.load("BANK1").unwrap().slot(0, 0), Ok(Some(r)));
}

#[test]
fn release_of_an_unknown_reference_is_refused() {
    let mut disk = Disk::default();
    let mut coordinator = Coordinator::new();
    coordinator.start_transaction().unwrap();
    let ghost = Reference { digest: 9 };
    assert_eq!(coordinator.release(ghost), Err(Error::NotFound(Missing::Entity(ghost))));
    let staged = coordinator.put(b"PIKA").unwrap();
    assert_eq!(coordinator.release(staged), Ok(()));
    assert_eq!(run_commit(&mut coordinator, &mut disk), Outcome::Committed { banks: vec![] });
    assert_eq!(coordinator.uses(staged), Some(0));
    assert_eq!(coordinator.delete_unreferenced(), Ok(vec![staged]));
}

#[test]
fn restart_counts_one_use_for_each_slot() {
    let mut disk = Disk::default();
    let mut coordinator = with_bank1(&mut disk);
    coordinator.start_transaction().unwrap();
    let r = coordinator.put(b"PIKA").unwrap();
    let orphan = coordinator.put(b"ORPHAN").unwrap();
    coordinator.set_slot("BANK1", 0, 0, Some(r)).unwrap();
    coordinator.set_slot("BANK1", 0, 1, Some(r)).unwrap();
    run_commit(&mut coordinator, &mut disk);

    let mut restarted = disk.reopen();
    assert_eq!(restarted.load("BANK1"), coordinator.load("BANK1"));
    assert_eq!(restarted.delete_unreferenced(), Ok(vec![orphan]));
    restarted.start_transaction().unwrap();
    restarted.set_slot("BANK1", 0, 0, None).unwrap();
    restarted.set_slot("BANK1", 0, 1, None).unwrap();
    restarted.release(r).unwrap();
    run_commit(&mut restarted, &mut disk);
    assert_eq!(restarted.delete_unreferenced(), Ok(vec![]));
    restarted.start_transaction().unwrap();
    restarted.release(r).unwrap();
    run_commit(&mut restarted, &mut disk);
    assert_eq!(restarted.delete_unreferenced(), Ok(vec![r]));
}

#[test]
fn manifest_on_disk_that_names_a_lost_entity_is_not_taken_in() {
    let mut bank = Bank::new(1, 2).unwrap();
    let kept = reference_of(b"KEPT");
    let lost = reference_of(b"LOST");
    bank.set_slot(0, 0, Some(kept)).unwrap();
    bank.set_slot(0, 1, Some(lost)).unwrap();
    let mut coordinator = Coordinator::new();
    assert_eq!(coordinator.adopt_entity(b"KEPT"), Ok(kept));
    assert_eq!(
        coordinator.adopt_bank("BANK1", &bank.to_manifest()),
        Err(Error::NotFound(Missing::Entity(lost)))
    );
    assert_eq!(
        coordinator.load("BANK1"),
        Err(Error::NotFound(Missing::Bank("BANK1".to_string())))
    );
    assert_eq!(coordinator.delete_unreferenced(), Ok(vec![kept]));
}

#[test]
fn staging_a_bank_twice_keeps_the_later_and_the_first_place() {
    let mut disk = Disk::default();
    let mut coordinator = Coordinator::new();
    coordinator.start_transaction().unwrap();
    coordinator.stage_bank("A", Bank::new(1, 1).unwrap()).unwrap();
    coordinator.stage_bank("B", Bank::new(1, 1).unwrap()).unwrap();
    coordinator.stage_bank("A", Bank::new(2, 2).unwrap()).unwrap();
    let outcome = run_commit(&mut coordinator, &mut disk);
    assert_eq!(outcome, Outcome::Committed { banks: vec!["A".to_string(), "B".to_string()] });
    assert_eq!(coordinator.load("A"), Ok(Bank::new(2, 2).unwrap()));
    assert_eq!(disk.live.len(), 2);
}
