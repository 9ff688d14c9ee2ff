//! The entity store: payloads kept under the digest of their bytes, each
//! with a count of its uses.

use vstd::prelude::*;
use crate::bytes::copy_bytes;
use crate::digest::{content_hash, reference_of, Reference};
use crate::error::{Error, Missing};

verus! {

/// What the store holds under one reference.
pub struct BlobView {
    pub payload: Seq<u8>,
    pub uses: nat,
}

/// The contents of a store: for each reference held, payload and use count.
pub type StoreView = Map<Reference, BlobView>;

/// A use count one higher, unless it is at the machine's limit already.
pub open spec fn bump(uses: nat) -> nat {
    if uses < u64::MAX {
        uses + 1
    } else {
        uses
    }
}

/// A use count one lower, unless it is zero already.
pub open spec fn drop_use(uses: nat) -> nat {
    if uses > 0 {
        (uses - 1) as nat
    } else {
        0
    }
}

/// The reference of a payload.
pub open spec fn reference_spec(payload: Seq<u8>) -> Reference {
    Reference { digest: content_hash(payload) }
}

/// Every payload is held under its own digest.
pub open spec fn content_addressed(m: StoreView) -> bool {
    forall|r: Reference| #[trigger] m.contains_key(r) ==> r == reference_spec(m[r].payload)
}

/// The store after `payload` is put: a payload whose reference is held
/// already is not written again, and gains a use; a new one is held once.
pub open spec fn after_put(m: StoreView, payload: Seq<u8>) -> StoreView {
    let r = reference_spec(payload);
    if m.contains_key(r) {
        m.insert(r, BlobView { payload: m[r].payload, uses: bump(m[r].uses) })
    } else {
        m.insert(r, BlobView { payload, uses: 1 })
    }
}

/// The store after `payload` is adopted: held with no use if it was not held.
pub open spec fn after_adopt(m: StoreView, payload: Seq<u8>) -> StoreView {
    let r = reference_spec(payload);
    if m.contains_key(r) {
        m
    } else {
        m.insert(r, BlobView { payload, uses: 0 })
    }
}

/// The store after one more use of `r` is recorded.
pub open spec fn after_hold(m: StoreView, r: Reference) -> StoreView {
    if m.contains_key(r) {
        m.insert(r, BlobView { payload: m[r].payload, uses: bump(m[r].uses) })
    } else {
        m
    }
}

/// The store after one use of `r` is released. Nothing is deleted.
pub open spec fn after_release(m: StoreView, r: Reference) -> StoreView {
    if m.contains_key(r) {
        m.insert(r, BlobView { payload: m[r].payload, uses: drop_use(m[r].uses) })
    } else {
        m
    }
}

/// Whether a sweep that spares `keep` deletes what is held under `r`.
pub open spec fn swept(m: StoreView, keep: Set<Reference>, r: Reference) -> bool {
    m.contains_key(r) && m[r].uses == 0 && !keep.contains(r)
}

/// The store after a sweep that spares `keep`.
pub open spec fn after_sweep(m: StoreView, keep: Set<Reference>) -> StoreView {
    m.remove_keys(Set::new(|r: Reference| swept(m, keep, r)))
}

struct Blob {
    reference: Reference,
    payload: Vec<u8>,
    uses: u64,
}

impl View for Blob {
    type V = BlobView;

    closed spec fn view(&self) -> BlobView {
        BlobView { payload: self.payload@, uses: self.uses as nat }
    }
}

spec fn holds(blobs: Seq<Blob>, r: Reference) -> bool {
    exists|i: int| 0 <= i < blobs.len() && (#[trigger] blobs[i]).reference == r
}

spec fn index_of(blobs: Seq<Blob>, r: Reference) -> int {
    choose|i: int| 0 <= i < blobs.len() && (#[trigger] blobs[i]).reference == r
}

spec fn distinct(blobs: Seq<Blob>) -> bool {
    forall|i: int, j: int|
        0 <= i < j < blobs.len() ==> (#[trigger] blobs[i]).reference != (#[trigger] blobs[j]).reference
}

spec fn model(blobs: Seq<Blob>) -> StoreView {
    Map::new(|r: Reference| holds(blobs, r), |r: Reference| blobs[index_of(blobs, r)]@)
}

proof fn lemma_model_at(blobs: Seq<Blob>, i: int)
    requires
        distinct(blobs),
        0 <= i < blobs.len(),
    ensures
        holds(blobs, blobs[i].reference),
        index_of(blobs, blobs[i].reference) == i,
        model(blobs).contains_key(blobs[i].reference),
        model(blobs)[blobs[i].reference] == blobs[i]@,
{
    let r = blobs[i].reference;
    assert(holds(blobs, r));
    let k = index_of(blobs, r);
    assert(0 <= k < blobs.len() && blobs[k].reference == r);
    if k < i {
        assert(blobs[k].reference != blobs[i].reference);
    } else if i < k {
        assert(blobs[i].reference != blobs[k].reference);
    }
}

proof fn lemma_model_push(blobs: Seq<Blob>, b: Blob)
    requires
        distinct(blobs),
        !holds(blobs, b.reference),
    ensures
        distinct(blobs.push(b)),
        model(blobs.push(b)) == model(blobs).insert(b.reference, b@),
{
    let next = blobs.push(b);
    assert(distinct(next)) by {
        assert forall|i: int, j: int| 0 <= i < j < next.len() implies (#[trigger] next[i]).reference
            != (#[trigger] next[j]).reference by {
            if j == blobs.len() {
                assert(blobs[i].reference != b.reference);
            } else {
                assert(blobs[i].reference != blobs[j].reference);
            }
        }
    }
    assert forall|r: Reference| #[trigger] model(next).contains_key(r) <==> model(blobs).insert(
        b.reference,
        b@,
    ).contains_key(r) by {
        if holds(next, r) {
            let k = index_of(next, r);
            if k < blobs.len() {
                assert(blobs[k].reference == r);
            }
        }
        if holds(blobs, r) {
            let k = index_of(blobs, r);
            assert(next[k].reference == r);
        }
        if r == b.reference {
            assert(next[blobs.len() as int].reference == r);
        }
    }
    assert forall|r: Reference| #[trigger] model(next).contains_key(r) implies model(next)[r]
        == model(blobs).insert(b.reference, b@)[r] by {
        let k = index_of(next, r);
        lemma_model_at(next, k);
        if k < blobs.len() {
            lemma_model_at(blobs, k);
        }
    }
    assert(model(next) =~= model(blobs).insert(b.reference, b@));
}

proof fn lemma_model_update(blobs: Seq<Blob>, i: int, b: Blob)
    requires
        distinct(blobs),
        0 <= i < blobs.len(),
        b.reference == blobs[i].reference,
    ensures
        distinct(blobs.update(i, b)),
        model(blobs.update(i, b)) == model(blobs).insert(b.reference, b@),
{
    let next = blobs.update(i, b);
    assert(distinct(next)) by {
        assert forall|x: int, y: int| 0 <= x < y < next.len() implies (#[trigger] next[x]).reference
            != (#[trigger] next[y]).reference by {
            assert(blobs[x].reference != blobs[y].reference);
        }
    }
    assert forall|r: Reference| #[trigger] model(next).contains_key(r) <==> model(blobs).insert(
        b.reference,
        b@,
    ).contains_key(r) by {
        if holds(next, r) {
            let k = index_of(next, r);
            assert(blobs[k].reference == r);
        }
        if holds(blobs, r) {
            let k = index_of(blobs, r);
            assert(next[k].reference == r);
        }
        if r == b.reference {
            assert(next[i].reference == r);
        }
    }
    assert forall|r: Reference| #[trigger] model(next).contains_key(r) implies model(next)[r]
        == model(blobs).insert(b.reference, b@)[r] by {
        let k = index_of(next, r);
        lemma_model_at(next, k);
        lemma_model_at(blobs, k);
    }
    assert(model(next) =~= model(blobs).insert(b.reference, b@));
}

proof fn lemma_model_remove(blobs: Seq<Blob>, i: int)
    requires
        distinct(blobs),
        0 <= i < blobs.len(),
    ensures
        distinct(blobs.remove(i)),
        model(blobs.remove(i)) == model(blobs).remove(blobs[i].reference),
{
    let next = blobs.remove(i);
    let gone = blobs[i].reference;
    assert forall|x: int| 0 <= x < next.len() implies #[trigger] next[x] == blobs[if x < i {
        x
    } else {
        x + 1
    }] by {}
    assert(distinct(next)) by {
        assert forall|x: int, y: int| 0 <= x < y < next.len() implies (#[trigger] next[x]).reference
            != (#[trigger] next[y]).reference by {
            let bx = if x < i { x } else { x + 1 };
            let by_ = if y < i { y } else { y + 1 };
            assert(blobs[bx].reference != blobs[by_].reference);
        }
    }
    assert forall|r: Reference| #[trigger] model(next).contains_key(r) <==> model(blobs).remove(
        gone,
    ).contains_key(r) by {
        if holds(next, r) {
            let k = index_of(next, r);
            let bk = if k < i { k } else { k + 1 };
            assert(blobs[bk].reference == r);
            if bk < i {
                assert(blobs[bk].reference != blobs[i].reference);
            } else {
                assert(blobs[i].reference != blobs[bk].reference);
            }
        }
        if holds(blobs, r) && r != gone {
            let k = index_of(blobs, r);
            let nk = if k < i { k } else { k - 1 };
            assert(next[nk].reference == r);
        }
    }
    assert forall|r: Reference| #[trigger] model(next).contains_key(r) implies model(next)[r]
        == model(blobs).remove(gone)[r] by {
        let k = index_of(next, r);
        lemma_model_at(next, k);
        let bk = if k < i { k } else { k + 1 };
        lemma_model_at(blobs, bk);
    }
    assert(model(next) =~= model(blobs).remove(gone));
}

/// Whether `list` names `r`.
pub fn names(list: &Vec<Reference>, r: Reference) -> (found: bool)
    ensures
        found == list@.contains(r),
{
    let mut i: usize = 0;
    while i < list.len()
        invariant
            i <= list.len(),
            forall|k: int| 0 <= k < i ==> list@[k] != r,
        decreases list.len() - i,
    {
        if list[i] == r {
            return true;
        }
        i += 1;
    }
    false
}

/// Payloads held under the digest of their bytes.
pub struct EntityStore {
    blobs: Vec<Blob>,
}

impl View for EntityStore {
    type V = StoreView;

    closed spec fn view(&self) -> StoreView {
        model(self.blobs@)
    }
}

impl EntityStore {
    /// No reference is held twice, and each payload is held under its digest.
    pub closed spec fn wf(&self) -> bool {
        &&& distinct(self.blobs@)
        &&& forall|i: int|
            0 <= i < self.blobs.len() ==> (#[trigger] self.blobs[i]).reference == reference_spec(
                self.blobs[i].payload@,
            )
    }

    /// In a well-formed store every payload is held under its own digest.
    pub proof fn lemma_content_addressed(&self)
        requires
            self.wf(),
        ensures
            content_addressed(self@),
            self@.dom().finite(),
    {
        assert forall|r: Reference| #[trigger] self@.contains_key(r) implies r == reference_spec(
            self@[r].payload,
        ) by {
            let k = index_of(self.blobs@, r);
            lemma_model_at(self.blobs@, k);
        }
        lemma_model_finite(self.blobs@);
    }

    /// A store that holds nothing.
    pub fn new() -> (store: EntityStore)
        ensures
            store.wf(),
            store@ == Map::<Reference, BlobView>::empty(),
    {
        let store = EntityStore { blobs: Vec::new() };
        assert(store@ =~= Map::<Reference, BlobView>::empty());
        store
    }

    fn find(&self, r: Reference) -> (at: Option<usize>)
        requires
            self.wf(),
        ensures
            match at {
                Some(i) => i < self.blobs.len() && self.blobs[i as int].reference == r
                    && self@.contains_key(r) && self@[r] == self.blobs[i as int]@,
                None => !self@.contains_key(r),
            },
    {
        let mut i: usize = 0;
        while i < self.blobs.len()
            invariant
                self.wf(),
                i <= self.blobs.len(),
                forall|k: int| 0 <= k < i ==> (#[trigger] self.blobs[k]).reference != r,
            decreases self.blobs.len() - i,
        {
            if self.blobs[i].reference == r {
                proof {
                    lemma_model_at(self.blobs@, i as int);
                }
                return Some(i);
            }
            i += 1;
        }
        None
    }

    /// How many references are held.
    pub fn len(&self) -> (n: usize)
        requires
            self.wf(),
        ensures
            n == self@.dom().len(),
    {
        proof {
            lemma_model_len(self.blobs@);
        }
        self.blobs.len()
    }

    /// Whether a payload is held under `r`.
    pub fn contains(&self, r: Reference) -> (held: bool)
        requires
            self.wf(),
        ensures
            held == self@.contains_key(r),
    {
        self.find(r).is_some()
    }

    /// The references held, in the order in which they came to be held.
    pub fn references(&self) -> (held: Vec<Reference>)
        requires
            self.wf(),
        ensures
            held@.no_duplicates(),
            forall|r: Reference| held@.contains(r) <==> self@.contains_key(r),
    {
        let mut held: Vec<Reference> = Vec::with_capacity(self.blobs.len());
        let mut i: usize = 0;
        while i < self.blobs.len()
            invariant
                i <= self.blobs.len(),
                held@.len() == i,
                forall|k: int| 0 <= k < i ==> #[trigger] held@[k] == self.blobs[k].reference,
            decreases self.blobs.len() - i,
        {
            held.push(self.blobs[i].reference);
            i += 1;
        }
        proof {
            assert forall|r: Reference| held@.contains(r) <==> self@.contains_key(r) by {
                if held@.contains(r) {
                    let k = choose|k: int| 0 <= k < held@.len() && held@[k] == r;
                    assert(self.blobs[k].reference == r);
                }
                if self@.contains_key(r) {
                    let k = index_of(self.blobs@, r);
                    assert(held@[k] == r);
                }
            }
            assert forall|i: int, j: int| 0 <= i < j < held@.len() implies held@[i] != held@[j] by {
                assert(self.blobs[i].reference != self.blobs[j].reference);
            }
        }
        held
    }

    /// The use count of what is held under `r`.
    pub fn uses(&self, r: Reference) -> (count: Option<u64>)
        requires
            self.wf(),
        ensures
            match count {
                Some(n) => self@.contains_key(r) && self@[r].uses == n,
                None => !self@.contains_key(r),
            },
    {
        match self.find(r) {
            Some(i) => Some(self.blobs[i].uses),
            None => None,
        }
    }

    /// Replaces the use count of the blob at index `i`.
    fn set_uses(&mut self, i: usize, uses: u64)
        requires
            old(self).wf(),
            i < old(self).blobs.len(),
        ensures
            final(self).wf(),
            final(self).blobs.len() == old(self).blobs.len(),
            final(self)@ == old(self)@.insert(
                old(self).blobs[i as int].reference,
                BlobView { payload: old(self).blobs[i as int].payload@, uses: uses as nat },
            ),
    {
        let mut blob = self.blobs.remove(i);
        blob.uses = uses;
        proof {
            lemma_model_update(old(self).blobs@, i as int, blob);
            assert(self.blobs@.insert(i as int, blob) =~= old(self).blobs@.update(i as int, blob));
        }
        self.blobs.insert(i, blob);
    }

    /// Stores `payload` under its digest unless that reference is held
    /// already, counts one more use, and returns the reference.
    pub fn put(&mut self, payload: &[u8]) -> (r: Reference)
        requires
            old(self).wf(),
        ensures
            final(self).wf(),
            r == reference_spec(payload@),
            final(self)@ == after_put(old(self)@, payload@),
    {
        let r = reference_of(payload);
        match self.find(r) {
            Some(i) => {
                let uses: u64 = self.blobs[i].uses;
                if uses < u64::MAX {
                    self.set_uses(i, uses + 1);
                } else {
                    assert(old(self)@ =~= after_put(old(self)@, payload@));
                }
            },
            None => {
                let blob = Blob { reference: r, payload: copy_bytes(payload), uses: 1 };
                proof {
                    lemma_model_push(self.blobs@, blob);
                }
                self.blobs.push(blob);
            },
        }
        r
    }

    /// Takes in a payload found on disk: it is held with no use counted,
    /// unless its reference is held already.
    pub fn adopt(&mut self, payload: &[u8]) -> (r: Reference)
        requires
            old(self).wf(),
        ensures
            final(self).wf(),
            r == reference_spec(payload@),
            final(self)@ == after_adopt(old(self)@, payload@),
    {
        let r = reference_of(payload);
        if self.find(r).is_none() {
            let blob = Blob { reference: r, payload: copy_bytes(payload), uses: 0 };
            proof {
                lemma_model_push(self.blobs@, blob);
            }
            self.blobs.push(blob);
        }
        r
    }

    /// The payload held under `r`: bytes whose digest is `r`.
    pub fn get(&self, r: Reference) -> (result: Result<&Vec<u8>, Error>)
        requires
            self.wf(),
        ensures
            match result {
                Ok(payload) => self@.contains_key(r) && payload@ == self@[r].payload
                    && reference_spec(payload@) == r,
                Err(e) => !self@.contains_key(r) && e == Error::NotFound(Missing::Entity(r)),
            },
    {
        proof {
            self.lemma_content_addressed();
        }
        match self.find(r) {
            Some(i) => Ok(&self.blobs[i].payload),
            None => Err(Error::NotFound(Missing::Entity(r))),
        }
    }

    /// Counts one more use of what is held under `r`.
    pub fn hold(&mut self, r: Reference) -> (result: Result<(), Error>)
        requires
            old(self).wf(),
        ensures
            final(self).wf(),
            final(self)@ == after_hold(old(self)@, r),
            old(self)@.contains_key(r) ==> result == Ok::<(), Error>(()),
            !old(self)@.contains_key(r) ==> result == Err::<(), Error>(
                Error::NotFound(Missing::Entity(r)),
            ),
    {
        match self.find(r) {
            Some(i) => {
                let uses: u64 = self.blobs[i].uses;
                if uses < u64::MAX {
                    self.set_uses(i, uses + 1);
                } else {
                    assert(old(self)@ =~= after_hold(old(self)@, r));
                }
                Ok(())
            },
            None => Err(Error::NotFound(Missing::Entity(r))),
        }
    }

    /// Counts one use less of what is held under `r`. A count that reaches
    /// zero makes the payload eligible for a later sweep; nothing is deleted
    /// here.
    pub fn release(&mut self, r: Reference) -> (result: Result<(), Error>)
        requires
            old(self).wf(),
        ensures
            final(self).wf(),
            final(self)@ == after_release(old(self)@, r),
            old(self)@.contains_key(r) ==> result == Ok::<(), Error>(()),
            !old(self)@.contains_key(r) ==> result == Err::<(), Error>(
                Error::NotFound(Missing::Entity(r)),
            ),
    {
        match self.find(r) {
            Some(i) => {
                let uses: u64 = self.blobs[i].uses;
                if uses > 0 {
                    self.set_uses(i, uses - 1);
                } else {
                    assert(old(self)@ =~= after_release(old(self)@, r));
                }
                Ok(())
            },
            None => Err(Error::NotFound(Missing::Entity(r))),
        }
    }

    /// Deletes every payload whose use count is zero, except those that
    /// `keep` names, and returns the references deleted.
    pub fn delete_unreferenced_keeping(&mut self, keep: &Vec<Reference>) -> (removed: Vec<
        Reference,
    >)
        requires
            old(self).wf(),
        ensures
            final(self).wf(),
            final(self)@ == after_sweep(old(self)@, keep@.to_set()),
            removed@.no_duplicates(),
            forall|r: Reference|
                removed@.contains(r) <==> swept(old(self)@, keep@.to_set(), r),
    {
        let ghost orig = self@;
        let ghost spared = keep@.to_set();
        let mut removed: Vec<Reference> = Vec::new();
        let mut i: usize = 0;
        while i < self.blobs.len()
            invariant
                self.wf(),
                i <= self.blobs.len(),
                spared == keep@.to_set(),
                forall|r: Reference| #[trigger]
                    self@.contains_key(r) ==> orig.contains_key(r) && self@[r] == orig[r],
                forall|r: Reference| #[trigger]
                    orig.contains_key(r) ==> self@.contains_key(r) || removed@.contains(r),
                forall|r: Reference| #[trigger]
                    removed@.contains(r) ==> swept(orig, spared, r) && !self@.contains_key(r),
                removed@.no_duplicates(),
                forall|k: int|
                    0 <= k < i ==> (#[trigger] self.blobs[k]).uses > 0 || keep@.contains(
                        self.blobs[k].reference,
                    ),
            decreases self.blobs.len() - i,
        {
            let r: Reference = self.blobs[i].reference;
            let ghost before = self.blobs@;
            let ghost before_removed = removed@;
            let ghost pre = self@;
            proof {
                lemma_model_at(before, i as int);
                assert(pre.contains_key(r) && orig[r] == pre[r]);
            }
            if self.blobs[i].uses == 0 && !names(keep, r) {
                self.blobs.remove(i);
                removed.push(r);
                proof {
                    lemma_model_remove(before, i as int);
                    assert(self@ == pre.remove(r));
                    assert forall|k: int| 0 <= k < self.blobs.len() implies (
                    #[trigger] self.blobs[k]).reference == reference_spec(
                        self.blobs[k].payload@,
                    ) by {
                        let bk = if k < i { k } else { k + 1 };
                        assert(self.blobs[k] == before[bk]);
                    }
                    assert forall|q: Reference| #[trigger]
                        removed@.contains(q) implies swept(orig, spared, q) && !self@.contains_key(
                        q,
                    ) by {
                        if q != r {
                            let w = choose|w: int| 0 <= w < removed@.len() && removed@[w] == q;
                            assert(before_removed[w] == q);
                            assert(before_removed.contains(q));
                        }
                    }
                    assert forall|q: Reference| #[trigger]
                        orig.contains_key(q) implies self@.contains_key(q) || removed@.contains(
                        q,
                    ) by {
                        if q == r {
                            assert(removed@[removed@.len() - 1] == r);
                        } else if before_removed.contains(q) {
                            let w = choose|w: int|
                                0 <= w < before_removed.len() && before_removed[w] == q;
                            assert(removed@[w] == q);
                        }
                    }
                    assert(!before_removed.contains(r));
                    assert(removed@.no_duplicates());
                }
            } else {
                i += 1;
            }
        }
        proof {
            assert forall|r: Reference| #[trigger]
                self@.contains_key(r) implies !swept(orig, spared, r) by {
                let k = index_of(self.blobs@, r);
                lemma_model_at(self.blobs@, k);
            }
            assert(self@ =~= after_sweep(orig, spared));
        }
        removed
    }

    /// Deletes every payload whose use count is zero and returns the
    /// references deleted.
    pub fn delete_unreferenced(&mut self) -> (removed: Vec<Reference>)
        requires
            old(self).wf(),
        ensures
            final(self).wf(),
            final(self)@ == after_sweep(old(self)@, Set::empty()),
            removed@.no_duplicates(),
            forall|r: Reference| removed@.contains(r) <==> swept(old(self)@, Set::empty(), r),
    {
        let keep: Vec<Reference> = Vec::new();
        assert(keep@.to_set() =~= Set::<Reference>::empty());
        self.delete_unreferenced_keeping(&keep)
    }
}

/// Putting the same bytes twice gives the same reference both times, and
/// the second put stores nothing new: it only counts a use.
pub proof fn lemma_put_twice_stores_once(m: StoreView, first: Seq<u8>, second: Seq<u8>)
    requires
        first == second,
    ensures
        reference_spec(first) == reference_spec(second),
        after_put(after_put(m, first), second).dom() == after_put(m, first).dom(),
        after_put(after_put(m, first), second)[reference_spec(first)].payload == after_put(
            m,
            first,
        )[reference_spec(first)].payload,
        m.dom().finite() ==> after_put(after_put(m, first), second).dom().len() == after_put(
            m,
            first,
        ).dom().len(),
{
    let r = reference_spec(first);
    let once = after_put(m, first);
    assert(once.contains_key(r));
    assert(after_put(once, second).dom() =~= once.dom());
}

/// A put never disturbs what is held under another reference, and what it
/// leaves under its own reference has that digest.
pub proof fn lemma_put_keeps_content_addressed(m: StoreView, payload: Seq<u8>)
    requires
        content_addressed(m),
    ensures
        content_addressed(after_put(m, payload)),
        after_put(m, payload).contains_key(reference_spec(payload)),
        forall|r: Reference|
            r != reference_spec(payload) ==> (after_put(m, payload).contains_key(r)
                == m.contains_key(r)),
        forall|r: Reference|
            r != reference_spec(payload) && m.contains_key(r) ==> after_put(m, payload)[r] == m[r],
{
    let next = after_put(m, payload);
    assert forall|r: Reference| #[trigger] next.contains_key(r) implies r == reference_spec(
        next[r].payload,
    ) by {
        if r != reference_spec(payload) {
            assert(m.contains_key(r));
        }
    }
}

/// Releasing deletes nothing, and a sweep deletes only payloads without
/// a use.
pub proof fn lemma_only_sweep_deletes(m: StoreView, r: Reference, keep: Set<Reference>)
    ensures
        after_release(m, r).dom() == m.dom(),
        forall|q: Reference|
            m.contains_key(q) && (m[q].uses > 0 || keep.contains(q)) ==> after_sweep(
                m,
                keep,
            ).contains_key(q) && after_sweep(m, keep)[q] == m[q],
        forall|q: Reference| after_sweep(m, keep).contains_key(q) ==> m.contains_key(q),
{
    assert(after_release(m, r).dom() =~= m.dom());
}

proof fn lemma_model_finite(blobs: Seq<Blob>)
    ensures
        model(blobs).dom().finite(),
    decreases blobs.len(),
{
    let refs = blobs.map_values(|b: Blob| b.reference).to_set();
    assert(refs.finite());
    assert(model(blobs).dom() =~= refs) by {
        let mapped = blobs.map_values(|b: Blob| b.reference);
        assert forall|r: Reference| model(blobs).dom().contains(r) <==> refs.contains(r) by {
            if holds(blobs, r) {
                let k = index_of(blobs, r);
                assert(mapped[k] == r);
            }
            if refs.contains(r) {
                let k = choose|k: int| 0 <= k < mapped.len() && mapped[k] == r;
                assert(blobs[k].reference == r);
            }
        }
    }
}

proof fn lemma_model_len(blobs: Seq<Blob>)
    requires
        distinct(blobs),
    ensures
        model(blobs).dom().finite(),
        model(blobs).dom().len() == blobs.len(),
    decreases blobs.len(),
{
    lemma_model_finite(blobs);
    if blobs.len() == 0 {
        assert(model(blobs).dom() =~= Set::<Reference>::empty());
    } else {
        let last = blobs.len() - 1;
        let rest = blobs.remove(last);
        lemma_model_remove(blobs, last);
        lemma_model_len(rest);
        lemma_model_at(blobs, last);
        assert(model(rest).dom() =~= model(blobs).dom().remove(blobs[last].reference));
    }
}

} // verus!
