//! The bank manager: the live manifest of every bank, by name.

use vstd::prelude::*;
use crate::bank::Bank;
use crate::digest::Reference;
use crate::bytes::copy_bytes;
use crate::error::{is_corrupt_manifest, is_missing_bank, Damaged, Error, Missing};
use crate::manifest::{decode, encode, lemma_decode_encode};

verus! {

/// The live manifests: for each bank that exists, the bytes of its file.
pub type ManifestsView = Map<Seq<char>, Seq<u8>>;

/// What loading the bank `name` gives: the bank that its manifest holds.
/// There is none if the bank does not exist or its manifest does not parse.
pub open spec fn loaded(m: ManifestsView, name: Seq<char>) -> Option<crate::bank::BankView> {
    if m.contains_key(name) {
        decode(m[name])
    } else {
        None
    }
}

/// Whether the live manifest of `name` parses and names `r`.
pub open spec fn refers(m: ManifestsView, name: Seq<char>, r: Reference) -> bool {
    m.contains_key(name) && decode(m[name]) is Some && decode(m[name])->0.names(r)
}

/// Whether some live manifest parses and names `r`.
pub open spec fn referred(m: ManifestsView, r: Reference) -> bool {
    exists|name: Seq<char>| refers(m, name, r)
}

/// The manifests after `bank` is saved under `name`.
pub open spec fn after_save(m: ManifestsView, name: Seq<char>, bank: crate::bank::BankView) -> ManifestsView {
    m.insert(name, encode(bank))
}

struct ManifestFile {
    name: String,
    bytes: Vec<u8>,
}

spec fn listed(files: Seq<ManifestFile>, name: Seq<char>) -> bool {
    exists|i: int| 0 <= i < files.len() && (#[trigger] files[i]).name@ == name
}

spec fn place_of(files: Seq<ManifestFile>, name: Seq<char>) -> int {
    choose|i: int| 0 <= i < files.len() && (#[trigger] files[i]).name@ == name
}

spec fn distinct(files: Seq<ManifestFile>) -> bool {
    forall|i: int, j: int|
        0 <= i < j < files.len() ==> (#[trigger] files[i]).name@ != (#[trigger] files[j]).name@
}

spec fn model(files: Seq<ManifestFile>) -> ManifestsView {
    Map::new(|name: Seq<char>| listed(files, name), |name: Seq<char>| files[place_of(files, name)].bytes@)
}

proof fn lemma_model_at(files: Seq<ManifestFile>, i: int)
    requires
        distinct(files),
        0 <= i < files.len(),
    ensures
        listed(files, files[i].name@),
        place_of(files, files[i].name@) == i,
        model(files).contains_key(files[i].name@),
        model(files)[files[i].name@] == files[i].bytes@,
{
    let name = files[i].name@;
    assert(listed(files, name));
    let k = place_of(files, name);
    assert(0 <= k < files.len() && files[k].name@ == name);
    if k < i {
        assert(files[k].name@ != files[i].name@);
    } else if i < k {
        assert(files[i].name@ != files[k].name@);
    }
}

proof fn lemma_model_push(files: Seq<ManifestFile>, f: ManifestFile)
    requires
        distinct(files),
        !listed(files, f.name@),
    ensures
        distinct(files.push(f)),
        model(files.push(f)) == model(files).insert(f.name@, f.bytes@),
{
    let next = files.push(f);
    assert(distinct(next)) by {
        assert forall|i: int, j: int| 0 <= i < j < next.len() implies (#[trigger] next[i]).name@ != (
        #[trigger] next[j]).name@ by {
            if j == files.len() {
                assert(files[i].name@ != f.name@);
            } else {
                assert(files[i].name@ != files[j].name@);
            }
        }
    }
    assert forall|name: Seq<char>| #[trigger] model(next).contains_key(name) <==> model(
        files,
    ).insert(f.name@, f.bytes@).contains_key(name) by {
        if listed(next, name) {
            let k = place_of(next, name);
            if k < files.len() {
                assert(files[k].name@ == name);
            }
        }
        if listed(files, name) {
            let k = place_of(files, name);
            assert(next[k].name@ == name);
        }
        if name == f.name@ {
            assert(next[files.len() as int].name@ == name);
        }
    }
    assert forall|name: Seq<char>| #[trigger] model(next).contains_key(name) implies model(
        next,
    )[name] == model(files).insert(f.name@, f.bytes@)[name] by {
        let k = place_of(next, name);
        lemma_model_at(next, k);
        if k < files.len() {
            lemma_model_at(files, k);
        }
    }
    assert(model(next) =~= model(files).insert(f.name@, f.bytes@));
}

proof fn lemma_model_update(files: Seq<ManifestFile>, i: int, f: ManifestFile)
    requires
        distinct(files),
        0 <= i < files.len(),
        f.name@ == files[i].name@,
    ensures
        distinct(files.update(i, f)),
        model(files.update(i, f)) == model(files).insert(f.name@, f.bytes@),
{
    let next = files.update(i, f);
    assert(distinct(next)) by {
        assert forall|x: int, y: int| 0 <= x < y < next.len() implies (#[trigger] next[x]).name@ != (
        #[trigger] next[y]).name@ by {
            assert(files[x].name@ != files[y].name@);
        }
    }
    assert forall|name: Seq<char>| #[trigger] model(next).contains_key(name) <==> model(
        files,
    ).insert(f.name@, f.bytes@).contains_key(name) by {
        if listed(next, name) {
            let k = place_of(next, name);
            assert(files[k].name@ == name);
        }
        if listed(files, name) {
            let k = place_of(files, name);
            assert(next[k].name@ == name);
        }
        if name == f.name@ {
            assert(next[i].name@ == name);
        }
    }
    assert forall|name: Seq<char>| #[trigger] model(next).contains_key(name) implies model(
        next,
    )[name] == model(files).insert(f.name@, f.bytes@)[name] by {
        let k = place_of(next, name);
        lemma_model_at(next, k);
        lemma_model_at(files, k);
    }
    assert(model(next) =~= model(files).insert(f.name@, f.bytes@));
}

spec fn file_names(files: Seq<ManifestFile>, j: int, r: Reference) -> bool {
    decode(files[j].bytes@) is Some && decode(files[j].bytes@)->0.names(r)
}

/// The live manifest of every bank that exists.
pub struct BankManager {
    files: Vec<ManifestFile>,
}

impl View for BankManager {
    type V = ManifestsView;

    closed spec fn view(&self) -> ManifestsView {
        model(self.files@)
    }
}

impl BankManager {
    /// No name is held twice.
    pub closed spec fn wf(&self) -> bool {
        distinct(self.files@)
    }

    /// A manager of no banks.
    pub fn new() -> (manager: BankManager)
        ensures
            manager.wf(),
            manager@ == Map::<Seq<char>, Seq<u8>>::empty(),
    {
        let manager = BankManager { files: Vec::new() };
        assert(manager@ =~= Map::<Seq<char>, Seq<u8>>::empty());
        manager
    }

    fn find(&self, name: &String) -> (at: Option<usize>)
        requires
            self.wf(),
        ensures
            match at {
                Some(i) => i < self.files.len() && self.files[i as int].name@ == name@
                    && self@.contains_key(name@) && self@[name@] == self.files[i as int].bytes@,
                None => !self@.contains_key(name@),
            },
    {
        let mut i: usize = 0;
        while i < self.files.len()
            invariant
                self.wf(),
                i <= self.files.len(),
                forall|k: int| 0 <= k < i ==> (#[trigger] self.files[k]).name@ != name@,
            decreases self.files.len() - i,
        {
            if self.files[i].name == *name {
                proof {
                    lemma_model_at(self.files@, i as int);
                }
                return Some(i);
            }
            i += 1;
        }
        None
    }

    /// The names of the banks that exist, in the order in which they came
    /// to exist.
    pub fn bank_names(&self) -> (names: Vec<String>)
        requires
            self.wf(),
        ensures
            forall|name: Seq<char>|
                self@.contains_key(name) <==> exists|i: int|
                    0 <= i < names@.len() && (#[trigger] names@[i])@ == name,
            forall|i: int, j: int|
                0 <= i < j < names@.len() ==> (#[trigger] names@[i])@ != (#[trigger] names@[j])@,
    {
        let mut names: Vec<String> = Vec::with_capacity(self.files.len());
        let mut i: usize = 0;
        while i < self.files.len()
            invariant
                i <= self.files.len(),
                names@.len() == i,
                forall|k: int| 0 <= k < i ==> (#[trigger] names@[k])@ == self.files[k].name@,
            decreases self.files.len() - i,
        {
            names.push(self.files[i].name.clone());
            i += 1;
        }
        proof {
            assert forall|name: Seq<char>| self@.contains_key(name) <==> exists|i: int|
                0 <= i < names@.len() && (#[trigger] names@[i])@ == name by {
                if self@.contains_key(name) {
                    let k = place_of(self.files@, name);
                    assert(names@[k]@ == name);
                }
                if exists|i: int| 0 <= i < names@.len() && (#[trigger] names@[i])@ == name {
                    let k = choose|i: int| 0 <= i < names@.len() && (#[trigger] names@[i])@ == name;
                    assert(self.files[k].name@ == name);
                }
            }
            assert forall|i: int, j: int| 0 <= i < j < names@.len() implies (#[trigger] names@[i])@
                != (#[trigger] names@[j])@ by {
                assert(self.files[i].name@ != self.files[j].name@);
            }
        }
        names
    }

    /// Whether a bank of this name exists.
    pub fn has_bank(&self, name: &str) -> (found: bool)
        requires
            self.wf(),
        ensures
            found == self@.contains_key(name@),
    {
        let key: String = name.to_owned();
        self.find(&key).is_some()
    }

    /// The bytes of the bank's live manifest.
    pub fn manifest(&self, name: &str) -> (bytes: Option<&Vec<u8>>)
        requires
            self.wf(),
        ensures
            match bytes {
                Some(b) => self@.contains_key(name@) && b@ == self@[name@],
                None => !self@.contains_key(name@),
            },
    {
        let key: String = name.to_owned();
        match self.find(&key) {
            Some(i) => Some(&self.files[i].bytes),
            None => None,
        }
    }

    /// Reads the bank of this name out of its live manifest.
    pub fn load(&self, name: &str) -> (result: Result<Bank, Error>)
        requires
            self.wf(),
        ensures
            match result {
                Ok(bank) => bank.wf() && loaded(self@, name@) == Some(bank@),
                Err(e) => loaded(self@, name@) is None && if self@.contains_key(name@) {
                    is_corrupt_manifest(e, name@)
                } else {
                    is_missing_bank(e, name@)
                },
            },
    {
        let key: String = name.to_owned();
        match self.find(&key) {
            Some(i) => match Bank::from_manifest(self.files[i].bytes.as_slice()) {
                Some(bank) => Ok(bank),
                None => Err(Error::Corrupt(Damaged::Manifest(key))),
            },
            None => Err(Error::NotFound(Missing::Bank(key))),
        }
    }

    /// Every reference that some live manifest names.
    pub fn named_references(&self) -> (named: Vec<Reference>)
        requires
            self.wf(),
        ensures
            forall|r: Reference| named@.contains(r) <==> referred(self@, r),
    {
        let mut named: Vec<Reference> = Vec::new();
        let mut i: usize = 0;
        while i < self.files.len()
            invariant
                self.wf(),
                i <= self.files.len(),
                forall|r: Reference| #[trigger]
                    named@.contains(r) ==> exists|j: int|
                        0 <= j < i && file_names(self.files@, j, r),
                forall|j: int, r: Reference|
                    0 <= j < i && #[trigger] file_names(self.files@, j, r) ==> named@.contains(r),
            decreases self.files.len() - i,
        {
            match Bank::from_manifest(self.files[i].bytes.as_slice()) {
                Some(bank) => {
                    let n: usize = bank.slot_count();
                    let mut k: usize = 0;
                    while k < n
                        invariant
                            self.wf(),
                            i < self.files.len(),
                            bank.wf(),
                            decode(self.files@[i as int].bytes@) == Some(bank@),
                            n == bank@.slots.len(),
                            k <= n,
                            forall|r: Reference| #[trigger]
                                named@.contains(r) ==> (exists|j: int|
                                    0 <= j < i && file_names(self.files@, j, r)) || (exists|q: int|
                                    0 <= q < k && bank@.slots[q] == Some(r)),
                            forall|j: int, r: Reference|
                                0 <= j < i && #[trigger] file_names(self.files@, j, r)
                                    ==> named@.contains(r),
                            forall|q: int|
                                0 <= q < k && (#[trigger] bank@.slots[q]) is Some
                                    ==> named@.contains(bank@.slots[q]->0),
                        decreases n - k,
                    {
                        let ghost before = named@;
                        match bank.slot_at(k) {
                            Some(r) => {
                                named.push(r);
                                proof {
                                    assert(named@[before.len() as int] == r);
                                    assert forall|x: Reference| before.contains(x) implies named@.contains(
                                        x,
                                    ) by {
                                        let w = choose|w: int| 0 <= w < before.len() && before[w] == x;
                                        assert(named@[w] == x);
                                    }
                                    assert forall|x: Reference| #[trigger]
                                        named@.contains(x) implies (exists|j: int|
                                        0 <= j < i && file_names(self.files@, j, x)) || (exists|q: int|
                                        0 <= q < k + 1 && bank@.slots[q] == Some(x)) by {
                                        let w = choose|w: int| 0 <= w < named@.len() && named@[w] == x;
                                        if w < before.len() {
                                            assert(before[w] == x);
                                            assert(before.contains(x));
                                            if exists|q: int| 0 <= q < k && bank@.slots[q] == Some(x) {
                                                let q = choose|q: int|
                                                    0 <= q < k && bank@.slots[q] == Some(x);
                                                assert(0 <= q < k + 1 && bank@.slots[q] == Some(x));
                                            }
                                        } else {
                                            assert(bank@.slots[k as int] == Some(x));
                                        }
                                    }
                                }
                            },
                            None => {
                                proof {
                                    assert forall|x: Reference| #[trigger]
                                        named@.contains(x) implies (exists|j: int|
                                        0 <= j < i && file_names(self.files@, j, x)) || (exists|q: int|
                                        0 <= q < k + 1 && bank@.slots[q] == Some(x)) by {
                                        if exists|q: int| 0 <= q < k && bank@.slots[q] == Some(x) {
                                            let q = choose|q: int|
                                                0 <= q < k && bank@.slots[q] == Some(x);
                                            assert(0 <= q < k + 1 && bank@.slots[q] == Some(x));
                                        }
                                    }
                                }
                            },
                        }
                        k += 1;
                    }
                    proof {
                        assert forall|r: Reference| #[trigger] named@.contains(r) implies exists|
                            j: int,
                        |
                            0 <= j < i + 1 && file_names(self.files@, j, r) by {
                            if exists|j: int| 0 <= j < i && file_names(self.files@, j, r) {
                                let j = choose|j: int| 0 <= j < i && file_names(self.files@, j, r);
                                assert(0 <= j < i + 1 && file_names(self.files@, j, r));
                            } else {
                                let q = choose|q: int| 0 <= q < k && bank@.slots[q] == Some(r);
                                assert(bank@.names(r));
                                assert(file_names(self.files@, i as int, r));
                            }
                        }
                        assert forall|j: int, r: Reference|
                            0 <= j < i + 1 && #[trigger] file_names(
                                self.files@,
                                j,
                                r,
                            ) implies named@.contains(r) by {
                            if j == i {
                                let q = choose|q: int|
                                    0 <= q < bank@.slots.len() && bank@.slots[q] == Some(r);
                                assert(bank@.slots[q] == Some(r));
                            }
                        }
                    }
                },
                None => {
                    proof {
                        assert forall|r: Reference| #[trigger] named@.contains(r) implies exists|
                            j: int,
                        |
                            0 <= j < i + 1 && file_names(self.files@, j, r) by {
                            let j = choose|j: int| 0 <= j < i && file_names(self.files@, j, r);
                            assert(0 <= j < i + 1 && file_names(self.files@, j, r));
                        }
                    }
                },
            }
            i += 1;
        }
        proof {
            assert forall|r: Reference| named@.contains(r) <==> referred(self@, r) by {
                if named@.contains(r) {
                    let j = choose|j: int| 0 <= j < i && file_names(self.files@, j, r);
                    lemma_model_at(self.files@, j);
                    assert(refers(self@, self.files@[j].name@, r));
                }
                if referred(self@, r) {
                    let name = choose|name: Seq<char>| refers(self@, name, r);
                    let j = place_of(self.files@, name);
                    lemma_model_at(self.files@, j);
                    assert(file_names(self.files@, j, r));
                }
            }
        }
        named
    }

    /// Makes `bytes` the live manifest of the bank of this name, which
    /// comes to exist if it did not.
    pub fn install(&mut self, name: &str, bytes: &[u8])
        requires
            old(self).wf(),
        ensures
            final(self).wf(),
            final(self)@ == old(self)@.insert(name@, bytes@),
    {
        let key: String = name.to_owned();
        let file = ManifestFile { name: key, bytes: copy_bytes(bytes) };
        match self.find(&file.name) {
            Some(i) => {
                proof {
                    lemma_model_update(self.files@, i as int, file);
                }
                self.files.set(i, file);
            },
            None => {
                proof {
                    lemma_model_push(self.files@, file);
                }
                self.files.push(file);
            },
        }
    }

    /// Writes the whole bank as the live manifest of this name. The
    /// coordinator does so at the commit point of a bank, and nowhere else.
    pub fn save(&mut self, name: &str, bank: &Bank)
        requires
            old(self).wf(),
            bank.wf(),
        ensures
            final(self).wf(),
            final(self)@ == after_save(old(self)@, name@, bank@),
            loaded(final(self)@, name@) == Some(bank@),
    {
        let bytes = bank.to_manifest();
        self.install(name, bytes.as_slice());
        proof {
            lemma_decode_encode(bank@);
        }
    }
}

/// Saving a bank and loading it gives the bank back, and leaves every
/// other bank as it was.
pub proof fn lemma_save_then_load(
    m: ManifestsView,
    name: Seq<char>,
    bank: crate::bank::BankView,
    other: Seq<char>,
)
    requires
        bank.wf(),
    ensures
        loaded(after_save(m, name, bank), name) == Some(bank),
        other != name ==> loaded(after_save(m, name, bank), other) == loaded(m, other),
{
    lemma_decode_encode(bank);
}

/// Saving what was loaded changes nothing: the manifest is byte for byte
/// what it was, so loading again gives the same bank.
pub proof fn lemma_load_save_load(m: ManifestsView, name: Seq<char>)
    requires
        loaded(m, name) is Some,
    ensures
        after_save(m, name, loaded(m, name)->0) == m,
        loaded(after_save(m, name, loaded(m, name)->0), name) == loaded(m, name),
{
    crate::manifest::lemma_encode_decode(m[name]);
    assert(after_save(m, name, loaded(m, name)->0) =~= m);
}

} // verus!
