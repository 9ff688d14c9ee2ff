//! The manifest: a bank written out as bytes, and read back.
//!
//! Layout: four bytes of magic, one byte of layout version, the number of
//! boxes and of positions as 32-bit little-endian integers, then one cell of
//! nine bytes per slot, box after box: a tag (0 empty, 1 occupied) and the
//! digest as a 64-bit little-endian integer, zero in an empty cell.

use vstd::prelude::*;
use vstd::bytes::{
    lemma_auto_spec_u32_to_from_le_bytes, lemma_auto_spec_u64_to_from_le_bytes,
    spec_u32_from_le_bytes, spec_u32_to_le_bytes, spec_u64_from_le_bytes, spec_u64_to_le_bytes,
    u32_from_le_bytes, u32_to_le_bytes, u64_from_le_bytes, u64_to_le_bytes,
};
use vstd::slice::slice_subrange;
use crate::bank::{Bank, BankView, MAX_SLOTS};
use crate::digest::Reference;

verus! {

/// Length of what precedes the cells.
pub const HEADER_LEN: usize = 13;

/// Length of one cell.
pub const CELL_LEN: usize = 9;

/// The layout version written and read.
pub const LAYOUT: u8 = 1;

/// The five bytes that every manifest starts with.
pub open spec fn preamble() -> Seq<u8> {
    seq![0x42u8, 0x4Eu8, 0x4Bu8, 0x4Du8, LAYOUT]
}

/// The nine bytes of one slot.
pub open spec fn encode_cell(slot: Option<Reference>) -> Seq<u8> {
    match slot {
        Some(r) => seq![1u8] + spec_u64_to_le_bytes(r.digest),
        None => seq![0u8] + spec_u64_to_le_bytes(0),
    }
}

/// The bytes of all slots, one cell after the other.
pub open spec fn encode_cells(slots: Seq<Option<Reference>>) -> Seq<u8> {
    Seq::new((CELL_LEN * slots.len()) as nat, |j: int| encode_cell(slots[j / 9])[j % 9])
}

/// The manifest of a bank.
pub open spec fn encode(v: BankView) -> Seq<u8> {
    preamble() + spec_u32_to_le_bytes(v.boxes as u32) + spec_u32_to_le_bytes(v.positions as u32)
        + encode_cells(v.slots)
}

/// The number of boxes that a manifest declares.
pub open spec fn declared_boxes(bytes: Seq<u8>) -> nat {
    spec_u32_from_le_bytes(bytes.subrange(5, 9)) as nat
}

/// The number of positions that a manifest declares.
pub open spec fn declared_positions(bytes: Seq<u8>) -> nat {
    spec_u32_from_le_bytes(bytes.subrange(9, 13)) as nat
}

/// The tag of the `i`-th cell.
pub open spec fn cell_tag(bytes: Seq<u8>, i: int) -> u8 {
    bytes[HEADER_LEN + CELL_LEN * i]
}

/// The digest field of the `i`-th cell.
pub open spec fn cell_digest(bytes: Seq<u8>, i: int) -> u64 {
    spec_u64_from_le_bytes(
        bytes.subrange(HEADER_LEN + CELL_LEN * i + 1, HEADER_LEN + CELL_LEN * i + 9),
    )
}

/// Whether the `i`-th cell is one that `encode_cell` writes.
pub open spec fn cell_ok(bytes: Seq<u8>, i: int) -> bool {
    cell_tag(bytes, i) == 1 || (cell_tag(bytes, i) == 0 && cell_digest(bytes, i) == 0)
}

/// The slot that the `i`-th cell stands for.
pub open spec fn decode_cell(bytes: Seq<u8>, i: int) -> Option<Reference> {
    if cell_tag(bytes, i) == 1 {
        Some(Reference { digest: cell_digest(bytes, i) })
    } else {
        None
    }
}

/// Whether the bytes begin as a manifest does and declare a shape within
/// limits whose cells fill the rest exactly.
pub open spec fn framed(bytes: Seq<u8>) -> bool {
    &&& bytes.len() >= HEADER_LEN
    &&& bytes.subrange(0, 5) == preamble()
    &&& declared_boxes(bytes) <= MAX_SLOTS
    &&& declared_positions(bytes) <= MAX_SLOTS
    &&& declared_boxes(bytes) * declared_positions(bytes) <= MAX_SLOTS
    &&& bytes.len() == HEADER_LEN + CELL_LEN * (declared_boxes(bytes) * declared_positions(bytes))
}

/// The bank that a manifest holds, if it is one.
pub open spec fn decode(bytes: Seq<u8>) -> Option<BankView> {
    if framed(bytes) && (forall|i: int|
        0 <= i < declared_boxes(bytes) * declared_positions(bytes) ==> #[trigger] cell_ok(bytes, i)) {
        Some(
            BankView {
                boxes: declared_boxes(bytes),
                positions: declared_positions(bytes),
                slots: Seq::new(
                    declared_boxes(bytes) * declared_positions(bytes),
                    |i: int| decode_cell(bytes, i),
                ),
            },
        )
    } else {
        None
    }
}

proof fn lemma_encode_cell_len(slot: Option<Reference>)
    ensures
        encode_cell(slot).len() == 9,
{
    lemma_auto_spec_u64_to_from_le_bytes();
}

proof fn lemma_encode_layout(v: BankView)
    requires
        v.wf(),
    ensures
        encode(v).len() == HEADER_LEN + CELL_LEN * v.slots.len(),
        encode(v).subrange(0, 5) == preamble(),
        encode(v).subrange(5, 9) == spec_u32_to_le_bytes(v.boxes as u32),
        encode(v).subrange(9, 13) == spec_u32_to_le_bytes(v.positions as u32),
        forall|j: int|
            0 <= j < CELL_LEN * v.slots.len() ==> #[trigger] encode(v)[HEADER_LEN + j]
                == encode_cell(v.slots[j / 9])[j % 9],
{
    lemma_auto_spec_u32_to_from_le_bytes();
    let e = encode(v);
    assert(e.subrange(0, 5) =~= preamble());
    assert(e.subrange(5, 9) =~= spec_u32_to_le_bytes(v.boxes as u32));
    assert(e.subrange(9, 13) =~= spec_u32_to_le_bytes(v.positions as u32));
}

proof fn lemma_encoded_cell(v: BankView, i: int)
    requires
        v.wf(),
        0 <= i < v.slots.len(),
    ensures
        cell_tag(encode(v), i) == encode_cell(v.slots[i])[0],
        encode(v).subrange(HEADER_LEN + CELL_LEN * i + 1, HEADER_LEN + CELL_LEN * i + 9)
            == encode_cell(v.slots[i]).subrange(1, 9),
{
    lemma_encode_layout(v);
    lemma_encode_cell_len(v.slots[i]);
    let e = encode(v);
    assert(e[HEADER_LEN + 9 * i] == encode_cell(v.slots[(9 * i) / 9])[(9 * i) % 9]);
    let sub = e.subrange(HEADER_LEN + CELL_LEN * i + 1, HEADER_LEN + CELL_LEN * i + 9);
    let want = encode_cell(v.slots[i]).subrange(1, 9);
    assert forall|k: int| 0 <= k < 8 implies sub[k] == want[k] by {
        let j = 9 * i + 1 + k;
        assert(j / 9 == i && j % 9 == 1 + k);
        assert(e[HEADER_LEN + j] == encode_cell(v.slots[j / 9])[j % 9]);
    }
    assert(sub =~= want);
}

/// A bank's manifest reads back as that bank.
pub proof fn lemma_decode_encode(v: BankView)
    requires
        v.wf(),
    ensures
        decode(encode(v)) == Some(v),
{
    lemma_auto_spec_u32_to_from_le_bytes();
    lemma_auto_spec_u64_to_from_le_bytes();
    lemma_encode_layout(v);
    let e = encode(v);
    assert(declared_boxes(e) == v.boxes);
    assert(declared_positions(e) == v.positions);
    assert(framed(e));
    let n = v.boxes * v.positions;
    assert forall|i: int| 0 <= i < n implies #[trigger] cell_ok(e, i) && decode_cell(e, i)
        == v.slots[i] by {
        lemma_encoded_cell(v, i);
        match v.slots[i] {
            Some(r) => {
                assert(encode_cell(v.slots[i]).subrange(1, 9) =~= spec_u64_to_le_bytes(r.digest));
            },
            None => {
                assert(encode_cell(v.slots[i]).subrange(1, 9) =~= spec_u64_to_le_bytes(0));
            },
        }
    }
    assert forall|i: int| 0 <= i < n implies #[trigger] decode_cell(e, i) == v.slots[i] by {
        assert(cell_ok(e, i));
    }
    let d = decode(e);
    assert(d is Some);
    assert(d->0.slots =~= v.slots);
}

/// Bytes that read as a bank are exactly that bank's manifest.
pub proof fn lemma_encode_decode(bytes: Seq<u8>)
    requires
        decode(bytes) is Some,
    ensures
        decode(bytes)->0.wf(),
        encode(decode(bytes)->0) == bytes,
{
    lemma_auto_spec_u32_to_from_le_bytes();
    lemma_auto_spec_u64_to_from_le_bytes();
    let v = decode(bytes)->0;
    lemma_encode_layout(v);
    let e = encode(v);
    assert(bytes.subrange(5, 9).len() == 4);
    assert(bytes.subrange(9, 13).len() == 4);
    assert(e.subrange(5, 9) == bytes.subrange(5, 9));
    assert(e.subrange(9, 13) == bytes.subrange(9, 13));
    assert forall|j: int| 0 <= j < bytes.len() implies e[j] == bytes[j] by {
        if j < 5 {
            assert(e.subrange(0, 5)[j] == bytes.subrange(0, 5)[j]);
        } else if j < 9 {
            assert(e.subrange(5, 9)[j - 5] == bytes.subrange(5, 9)[j - 5]);
        } else if j < 13 {
            assert(e.subrange(9, 13)[j - 9] == bytes.subrange(9, 13)[j - 9]);
        } else {
            let c = j - 13;
            let i = c / 9;
            let o = c % 9;
            assert(e[HEADER_LEN + c] == encode_cell(v.slots[i])[o]);
            assert(cell_ok(bytes, i));
            let field = bytes.subrange(HEADER_LEN + CELL_LEN * i + 1, HEADER_LEN + CELL_LEN * i + 9);
            assert(field.len() == 8);
            assert(spec_u64_to_le_bytes(cell_digest(bytes, i)) == field);
            if o > 0 {
                assert(field[o - 1] == bytes[j]);
            }
        }
    }
    assert(e =~= bytes);
}

impl Bank {
    /// Writes the bank out as a manifest.
    pub fn to_manifest(&self) -> (bytes: Vec<u8>)
        requires
            self.wf(),
        ensures
            bytes@ == encode(self@),
    {
        let mut out: Vec<u8> = Vec::new();
        out.push(0x42u8);
        out.push(0x4Eu8);
        out.push(0x4Bu8);
        out.push(0x4Du8);
        out.push(LAYOUT);
        let boxes = u32_to_le_bytes(self.boxes() as u32);
        let positions = u32_to_le_bytes(self.positions() as u32);
        out.push(boxes[0]);
        out.push(boxes[1]);
        out.push(boxes[2]);
        out.push(boxes[3]);
        out.push(positions[0]);
        out.push(positions[1]);
        out.push(positions[2]);
        out.push(positions[3]);
        assert(out@ =~= preamble() + spec_u32_to_le_bytes(self@.boxes as u32)
            + spec_u32_to_le_bytes(self@.positions as u32));
        let ghost head = out@;
        let n: usize = self.slot_count();
        let mut i: usize = 0;
        while i < n
            invariant
                self.wf(),
                n == self@.slots.len(),
                i <= n,
                head.len() == HEADER_LEN,
                out@.len() == HEADER_LEN + CELL_LEN * i,
                out@.subrange(0, HEADER_LEN as int) == head,
                forall|j: int|
                    0 <= j < CELL_LEN * i ==> #[trigger] out@[HEADER_LEN + j] == encode_cell(
                        self@.slots[j / 9],
                    )[j % 9],
            decreases n - i,
        {
            let ghost before = out@;
            let slot: Option<Reference> = self.slot_at(i);
            let (tag, digest): (u8, u64) = match slot {
                Some(r) => (1u8, r.digest),
                None => (0u8, 0u64),
            };
            let field = u64_to_le_bytes(digest);
            out.push(tag);
            out.push(field[0]);
            out.push(field[1]);
            out.push(field[2]);
            out.push(field[3]);
            out.push(field[4]);
            out.push(field[5]);
            out.push(field[6]);
            out.push(field[7]);
            proof {
                let cell = encode_cell(slot);
                assert(cell =~= seq![tag] + field@);
                assert(out@ =~= before + cell);
                assert(out@.subrange(0, HEADER_LEN as int) =~= before.subrange(0, HEADER_LEN as int));
                assert forall|j: int| 0 <= j < CELL_LEN * (i + 1) implies #[trigger] out@[HEADER_LEN
                    + j] == encode_cell(self@.slots[j / 9])[j % 9] by {
                    if j < CELL_LEN * i {
                        assert(out@[HEADER_LEN + j] == before[HEADER_LEN + j]);
                    } else {
                        assert(j / 9 == i && j % 9 == j - 9 * i);
                        assert(out@[HEADER_LEN + j] == cell[j - 9 * i]);
                    }
                }
            }
            i += 1;
        }
        proof {
            let e = encode(self@);
            lemma_encode_layout(self@);
            assert(out@.len() == e.len());
            assert forall|j: int| 0 <= j < e.len() implies out@[j] == e[j] by {
                if j < HEADER_LEN {
                    assert(out@.subrange(0, HEADER_LEN as int)[j] == head[j]);
                } else {
                    let c = j - HEADER_LEN;
                    assert(out@[HEADER_LEN + c] == e[HEADER_LEN + c]);
                }
            }
            assert(out@ =~= e);
        }
        out
    }

    /// Reads a bank out of a manifest; `None` if the bytes are not one.
    pub fn from_manifest(bytes: &[u8]) -> (read: Option<Bank>)
        ensures
            match read {
                Some(bank) => bank.wf() && decode(bytes@) == Some(bank@),
                None => decode(bytes@) is None,
            },
    {
        if bytes.len() < HEADER_LEN {
            return None;
        }
        if bytes[0] != 0x42u8 || bytes[1] != 0x4Eu8 || bytes[2] != 0x4Bu8 || bytes[3] != 0x4Du8
            || bytes[4] != LAYOUT {
            assert(bytes@.subrange(0, 5)[0] == bytes@[0]);
            assert(bytes@.subrange(0, 5)[1] == bytes@[1]);
            assert(bytes@.subrange(0, 5)[2] == bytes@[2]);
            assert(bytes@.subrange(0, 5)[3] == bytes@[3]);
            assert(bytes@.subrange(0, 5)[4] == bytes@[4]);
            return None;
        }
        assert(bytes@.subrange(0, 5) =~= preamble());
        let boxes: u32 = u32_from_le_bytes(slice_subrange(bytes, 5, 9));
        let positions: u32 = u32_from_le_bytes(slice_subrange(bytes, 9, 13));
        if boxes as usize > MAX_SLOTS || positions as usize > MAX_SLOTS {
            return None;
        }
        assert(boxes * positions <= 1_000_000 * 1_000_000) by (nonlinear_arith)
            requires
                boxes <= 1_000_000,
                positions <= 1_000_000,
        ;
        let count: u64 = (boxes as u64) * (positions as u64);
        if count > MAX_SLOTS as u64 {
            return None;
        }
        let n: usize = count as usize;
        if bytes.len() != HEADER_LEN + CELL_LEN * n {
            return None;
        }
        assert(framed(bytes@));
        let mut bank = match Bank::new(boxes as usize, positions as usize) {
            Some(bank) => bank,
            None => {
                return None;
            },
        };
        let mut i: usize = 0;
        while i < n
            invariant
                i <= n,
                n == boxes * positions,
                n <= MAX_SLOTS,
                bytes@.len() == HEADER_LEN + CELL_LEN * n,
                bank.wf(),
                bank@.boxes == boxes,
                bank@.positions == positions,
                forall|k: int| 0 <= k < i ==> #[trigger] cell_ok(bytes@, k),
                forall|k: int| 0 <= k < i ==> #[trigger] bank@.slots[k] == decode_cell(bytes@, k),
            decreases n - i,
        {
            let at: usize = HEADER_LEN + CELL_LEN * i;
            let tag: u8 = bytes[at];
            let digest: u64 = u64_from_le_bytes(slice_subrange(bytes, at + 1, at + 9));
            if !(tag == 1 || (tag == 0 && digest == 0)) {
                assert(!cell_ok(bytes@, i as int));
                return None;
            }
            let slot: Option<Reference> = if tag == 1 {
                Some(Reference { digest })
            } else {
                None
            };
            bank.put_at(i, slot);
            i += 1;
        }
        proof {
            let d = decode(bytes@);
            assert(d is Some);
            assert(d->0.slots =~= bank@.slots);
        }
        Some(bank)
    }
}

} // verus!
