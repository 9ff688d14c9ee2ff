//! Banks: fixed grids of slots, each empty or naming one stored entity.

use vstd::prelude::*;
use crate::digest::Reference;
use crate::error::{Error, Missing};

verus! {

/// The most slots that one bank may have, and the most boxes or positions.
pub const MAX_SLOTS: usize = 1_000_000;

/// A bank as a mathematical value: its shape, and its slots box after box.
pub struct BankView {
    pub boxes: nat,
    pub positions: nat,
    pub slots: Seq<Option<Reference>>,
}

impl BankView {
    /// The shape is within limits and there is one entry per slot.
    pub open spec fn wf(self) -> bool {
        &&& self.boxes <= MAX_SLOTS
        &&& self.positions <= MAX_SLOTS
        &&& self.boxes * self.positions <= MAX_SLOTS
        &&& self.slots.len() == self.boxes * self.positions
    }

    /// Whether the bank has a slot at this address.
    pub open spec fn has_slot(self, box_idx: int, position: int) -> bool {
        0 <= box_idx < self.boxes && 0 <= position < self.positions
    }

    /// Where the slot at this address stands in `slots`.
    pub open spec fn offset(self, box_idx: int, position: int) -> int {
        box_idx * self.positions + position
    }

    /// What the slot at this address holds.
    pub open spec fn slot(self, box_idx: int, position: int) -> Option<Reference> {
        self.slots[self.offset(box_idx, position)]
    }

    /// The bank with the slot at this address holding `content`.
    pub open spec fn with_slot(
        self,
        box_idx: int,
        position: int,
        content: Option<Reference>,
    ) -> BankView {
        BankView {
            boxes: self.boxes,
            positions: self.positions,
            slots: self.slots.update(self.offset(box_idx, position), content),
        }
    }

    /// Whether some slot names `r`.
    pub open spec fn names(self, r: Reference) -> bool {
        self.slots.contains(Some(r))
    }

    /// The bank of this shape with every slot empty.
    pub open spec fn empty(boxes: nat, positions: nat) -> BankView {
        BankView { boxes, positions, slots: Seq::new(boxes * positions, |i: int| None) }
    }
}

/// A slot address within the shape lies within the slots.
pub proof fn lemma_offset_in_range(boxes: int, positions: int, box_idx: int, position: int)
    by (nonlinear_arith)
    requires
        0 <= box_idx < boxes,
        0 <= position < positions,
    ensures
        0 <= box_idx * positions,
        box_idx * positions + position < boxes * positions,
{
}

/// Two addresses with the same offset are the same address.
pub proof fn lemma_offset_injective(positions: int, b1: int, p1: int, b2: int, p2: int)
    by (nonlinear_arith)
    requires
        0 <= p1 < positions,
        0 <= p2 < positions,
        b1 * positions + p1 == b2 * positions + p2,
    ensures
        b1 == b2,
        p1 == p2,
{
    if b1 < b2 {
        assert((b1 + 1) * positions <= b2 * positions);
    } else if b2 < b1 {
        assert((b2 + 1) * positions <= b1 * positions);
    }
}

/// Writing one slot changes that slot and no other.
pub proof fn lemma_with_slot(
    v: BankView,
    box_idx: int,
    position: int,
    content: Option<Reference>,
    other_box: int,
    other_position: int,
)
    requires
        v.wf(),
        v.has_slot(box_idx, position),
        v.has_slot(other_box, other_position),
    ensures
        v.with_slot(box_idx, position, content).wf(),
        v.with_slot(box_idx, position, content).slot(box_idx, position) == content,
        (other_box != box_idx || other_position != position) ==> v.with_slot(
            box_idx,
            position,
            content,
        ).slot(other_box, other_position) == v.slot(other_box, other_position),
{
    lemma_offset_in_range(v.boxes as int, v.positions as int, box_idx, position);
    lemma_offset_in_range(v.boxes as int, v.positions as int, other_box, other_position);
    if other_box != box_idx || other_position != position {
        if v.offset(box_idx, position) == v.offset(other_box, other_position) {
            lemma_offset_injective(
                v.positions as int,
                box_idx,
                position,
                other_box,
                other_position,
            );
        }
    }
}

/// A named grid's contents. The name is kept by whoever holds the bank.
#[derive(Debug, PartialEq, Eq)]
pub struct Bank {
    boxes: usize,
    positions: usize,
    slots: Vec<Option<Reference>>,
}

impl View for Bank {
    type V = BankView;

    closed spec fn view(&self) -> BankView {
        BankView { boxes: self.boxes as nat, positions: self.positions as nat, slots: self.slots@ }
    }
}

impl Clone for Bank {
    fn clone(&self) -> (copy: Bank)
        ensures
            copy@ == self@,
    {
        let mut slots: Vec<Option<Reference>> = Vec::with_capacity(self.slots.len());
        let mut i: usize = 0;
        while i < self.slots.len()
            invariant
                i <= self.slots.len(),
                slots@ == self.slots@.take(i as int),
            decreases self.slots.len() - i,
        {
            slots.push(self.slots[i]);
            assert(self.slots@.take(i + 1) =~= self.slots@.take(i as int).push(
                self.slots@[i as int],
            ));
            i += 1;
        }
        assert(self.slots@.take(i as int) =~= self.slots@);
        Bank { boxes: self.boxes, positions: self.positions, slots }
    }
}

impl Bank {
    /// The shape is within limits and there is one entry per slot.
    pub open spec fn wf(&self) -> bool {
        self@.wf()
    }

    /// Whether a bank of this shape can be made.
    pub open spec fn shape_ok(boxes: usize, positions: usize) -> bool {
        boxes <= MAX_SLOTS && positions <= MAX_SLOTS && boxes * positions <= MAX_SLOTS
    }

    /// A bank of the given shape with every slot empty, if the shape is
    /// within limits.
    pub fn new(boxes: usize, positions: usize) -> (made: Option<Bank>)
        ensures
            match made {
                Some(bank) => Self::shape_ok(boxes, positions) && bank.wf() && bank@
                    == BankView::empty(boxes as nat, positions as nat),
                None => !Self::shape_ok(boxes, positions),
            },
    {
        if boxes > MAX_SLOTS || positions > MAX_SLOTS {
            return None;
        }
        assert(boxes * positions <= 1_000_000 * 1_000_000) by (nonlinear_arith)
            requires
                boxes <= 1_000_000,
                positions <= 1_000_000,
        ;
        let count: u64 = (boxes as u64) * (positions as u64);
        if count > MAX_SLOTS as u64 {
            return None;
        }
        let n: usize = count as usize;
        let mut slots: Vec<Option<Reference>> = Vec::with_capacity(n);
        let mut i: usize = 0;
        while i < n
            invariant
                i <= n,
                slots@.len() == i,
                forall|k: int| 0 <= k < i ==> slots@[k] == None::<Reference>,
            decreases n - i,
        {
            slots.push(None);
            i += 1;
        }
        let bank = Bank { boxes, positions, slots };
        assert(bank@.slots =~= BankView::empty(boxes as nat, positions as nat).slots);
        Some(bank)
    }

    /// The number of boxes.
    pub fn boxes(&self) -> (n: usize)
        ensures
            n == self@.boxes,
    {
        self.boxes
    }

    /// The number of positions in each box.
    pub fn positions(&self) -> (n: usize)
        ensures
            n == self@.positions,
    {
        self.positions
    }

    /// The number of slots.
    pub fn slot_count(&self) -> (n: usize)
        requires
            self.wf(),
        ensures
            n == self@.slots.len(),
    {
        self.slots.len()
    }

    /// What the `index`-th slot holds, counting box after box.
    pub(crate) fn slot_at(&self, index: usize) -> (content: Option<Reference>)
        requires
            index < self@.slots.len(),
        ensures
            content == self@.slots[index as int],
    {
        self.slots[index]
    }

    /// Makes the `index`-th slot, counting box after box, hold `content`.
    pub(crate) fn put_at(&mut self, index: usize, content: Option<Reference>)
        requires
            index < old(self)@.slots.len(),
        ensures
            final(self)@ == (BankView {
                boxes: old(self)@.boxes,
                positions: old(self)@.positions,
                slots: old(self)@.slots.update(index as int, content),
            }),
    {
        self.slots.set(index, content);
    }

    fn locate(&self, box_idx: usize, position: usize) -> (at: Option<usize>)
        requires
            self.wf(),
        ensures
            match at {
                Some(i) => self@.has_slot(box_idx as int, position as int) && i == self@.offset(
                    box_idx as int,
                    position as int,
                ) && i < self.slots.len(),
                None => !self@.has_slot(box_idx as int, position as int),
            },
    {
        if box_idx >= self.boxes || position >= self.positions {
            return None;
        }
        proof {
            lemma_offset_in_range(
                self.boxes as int,
                self.positions as int,
                box_idx as int,
                position as int,
            );
        }
        Some(box_idx * self.positions + position)
    }

    /// What the slot at this address holds.
    pub fn slot(&self, box_idx: usize, position: usize) -> (result: Result<
        Option<Reference>,
        Error,
    >)
        requires
            self.wf(),
        ensures
            self@.has_slot(box_idx as int, position as int) ==> result == Ok::<
                Option<Reference>,
                Error,
            >(self@.slot(box_idx as int, position as int)),
            !self@.has_slot(box_idx as int, position as int) ==> result == Err::<
                Option<Reference>,
                Error,
            >(Error::NotFound(Missing::Slot { box_idx, position })),
    {
        match self.locate(box_idx, position) {
            Some(i) => Ok(self.slots[i]),
            None => Err(Error::NotFound(Missing::Slot { box_idx, position })),
        }
    }

    /// Makes the slot at this address hold `content`, and returns what it
    /// held before. A bank without such a slot is left as it is.
    pub fn set_slot(
        &mut self,
        box_idx: usize,
        position: usize,
        content: Option<Reference>,
    ) -> (result: Result<Option<Reference>, Error>)
        requires
            old(self).wf(),
        ensures
            final(self).wf(),
            old(self)@.has_slot(box_idx as int, position as int) ==> {
                &&& final(self)@ == old(self)@.with_slot(box_idx as int, position as int, content)
                &&& result == Ok::<Option<Reference>, Error>(
                    old(self)@.slot(box_idx as int, position as int),
                )
            },
            !old(self)@.has_slot(box_idx as int, position as int) ==> {
                &&& final(self)@ == old(self)@
                &&& result == Err::<Option<Reference>, Error>(
                    Error::NotFound(Missing::Slot { box_idx, position }),
                )
            },
    {
        match self.locate(box_idx, position) {
            Some(i) => {
                let previous: Option<Reference> = self.slots[i];
                self.slots.set(i, content);
                Ok(previous)
            },
            None => Err(Error::NotFound(Missing::Slot { box_idx, position })),
        }
    }

    /// Moves what the first slot holds into the second and leaves the
    /// first empty; returns what the second held before. Moving a slot
    /// onto itself changes nothing. If either address is not in the bank,
    /// the bank is left as it is and the first such address is reported.
    pub fn move_slot(
        &mut self,
        from_box: usize,
        from_position: usize,
        to_box: usize,
        to_position: usize,
    ) -> (result: Result<Option<Reference>, Error>)
        requires
            old(self).wf(),
        ensures
            final(self).wf(),
            final(self)@ == after_move(
                old(self)@,
                from_box as int,
                from_position as int,
                to_box as int,
                to_position as int,
            ),
            !old(self)@.has_slot(from_box as int, from_position as int) ==> result == Err::<
                Option<Reference>,
                Error,
            >(Error::NotFound(Missing::Slot { box_idx: from_box, position: from_position })),
            old(self)@.has_slot(from_box as int, from_position as int) && !old(self)@.has_slot(
                to_box as int,
                to_position as int,
            ) ==> result == Err::<Option<Reference>, Error>(
                Error::NotFound(Missing::Slot { box_idx: to_box, position: to_position }),
            ),
            old(self)@.has_slot(from_box as int, from_position as int) && old(self)@.has_slot(
                to_box as int,
                to_position as int,
            ) ==> result == Ok::<Option<Reference>, Error>(
                if from_box == to_box && from_position == to_position {
                    None
                } else {
                    old(self)@.slot(to_box as int, to_position as int)
                },
            ),
    {
        let from = match self.locate(from_box, from_position) {
            Some(i) => i,
            None => {
                return Err(
                    Error::NotFound(Missing::Slot { box_idx: from_box, position: from_position }),
                );
            },
        };
        let to = match self.locate(to_box, to_position) {
            Some(i) => i,
            None => {
                return Err(
                    Error::NotFound(Missing::Slot { box_idx: to_box, position: to_position }),
                );
            },
        };
        if from == to {
            proof {
                lemma_offset_injective(
                    self.positions as int,
                    from_box as int,
                    from_position as int,
                    to_box as int,
                    to_position as int,
                );
            }
            return Ok(None);
        }
        let moved: Option<Reference> = self.slots[from];
        let displaced: Option<Reference> = self.slots[to];
        self.slots.set(to, moved);
        self.slots.set(from, None);
        Ok(displaced)
    }

    /// Exchanges what the two slots hold. If either address is not in the
    /// bank, the bank is left as it is and the first such address is
    /// reported.
    pub fn swap_slots(
        &mut self,
        a_box: usize,
        a_position: usize,
        b_box: usize,
        b_position: usize,
    ) -> (result: Result<(), Error>)
        requires
            old(self).wf(),
        ensures
            final(self).wf(),
            final(self)@ == after_swap(
                old(self)@,
                a_box as int,
                a_position as int,
                b_box as int,
                b_position as int,
            ),
            !old(self)@.has_slot(a_box as int, a_position as int) ==> result == Err::<(), Error>(
                Error::NotFound(Missing::Slot { box_idx: a_box, position: a_position }),
            ),
            old(self)@.has_slot(a_box as int, a_position as int) && !old(self)@.has_slot(
                b_box as int,
                b_position as int,
            ) ==> result == Err::<(), Error>(
                Error::NotFound(Missing::Slot { box_idx: b_box, position: b_position }),
            ),
            old(self)@.has_slot(a_box as int, a_position as int) && old(self)@.has_slot(
                b_box as int,
                b_position as int,
            ) ==> result == Ok::<(), Error>(()),
    {
        let a = match self.locate(a_box, a_position) {
            Some(i) => i,
            None => {
                return Err(Error::NotFound(Missing::Slot { box_idx: a_box, position: a_position }));
            },
        };
        let b = match self.locate(b_box, b_position) {
            Some(i) => i,
            None => {
                return Err(Error::NotFound(Missing::Slot { box_idx: b_box, position: b_position }));
            },
        };
        let first: Option<Reference> = self.slots[a];
        let second: Option<Reference> = self.slots[b];
        self.slots.set(a, second);
        self.slots.set(b, first);
        assert(self@.slots =~= after_swap(
            old(self)@,
            a_box as int,
            a_position as int,
            b_box as int,
            b_position as int,
        ).slots);
        Ok(())
    }

    /// Whether some slot names `r`.
    pub fn names(&self, r: Reference) -> (found: bool)
        ensures
            found == self@.names(r),
    {
        let mut i: usize = 0;
        while i < self.slots.len()
            invariant
                i <= self.slots.len(),
                forall|k: int| 0 <= k < i ==> self.slots@[k] != Some(r),
            decreases self.slots.len() - i,
        {
            match self.slots[i] {
                Some(held) => {
                    if held == r {
                        return true;
                    }
                },
                None => {},
            }
            i += 1;
        }
        false
    }
}

/// The bank after a move: the second slot holds what the first held and
/// the first is empty. Nothing changes if the two addresses are the same
/// or either is not in the bank.
pub open spec fn after_move(
    v: BankView,
    from_box: int,
    from_position: int,
    to_box: int,
    to_position: int,
) -> BankView {
    if v.has_slot(from_box, from_position) && v.has_slot(to_box, to_position) && !(from_box
        == to_box && from_position == to_position) {
        v.with_slot(to_box, to_position, v.slot(from_box, from_position)).with_slot(
            from_box,
            from_position,
            None,
        )
    } else {
        v
    }
}

/// The bank after a swap: each of the two slots holds what the other held.
/// Nothing changes if either address is not in the bank.
pub open spec fn after_swap(
    v: BankView,
    a_box: int,
    a_position: int,
    b_box: int,
    b_position: int,
) -> BankView {
    if v.has_slot(a_box, a_position) && v.has_slot(b_box, b_position) {
        v.with_slot(a_box, a_position, v.slot(b_box, b_position)).with_slot(
            b_box,
            b_position,
            v.slot(a_box, a_position),
        )
    } else {
        v
    }
}

/// Swapping the same two slots twice restores the bank.
pub proof fn lemma_swap_twice(v: BankView, a_box: int, a_position: int, b_box: int, b_position: int)
    requires
        v.wf(),
    ensures
        after_swap(after_swap(v, a_box, a_position, b_box, b_position), a_box, a_position, b_box, b_position)
            == v,
{
    if v.has_slot(a_box, a_position) && v.has_slot(b_box, b_position) {
        lemma_offset_in_range(v.boxes as int, v.positions as int, a_box, a_position);
        lemma_offset_in_range(v.boxes as int, v.positions as int, b_box, b_position);
        let once = after_swap(v, a_box, a_position, b_box, b_position);
        let twice = after_swap(once, a_box, a_position, b_box, b_position);
        assert(twice.slots =~= v.slots);
    }
}

/// A move or a swap neither adds nor drops a reference, but for the one
/// that a move overwrites.
pub proof fn lemma_edits_keep_references(
    v: BankView,
    a_box: int,
    a_position: int,
    b_box: int,
    b_position: int,
    r: Reference,
)
    requires
        v.wf(),
    ensures
        after_swap(v, a_box, a_position, b_box, b_position).names(r) == v.names(r),
        after_move(v, a_box, a_position, b_box, b_position).names(r) ==> v.names(r),
        v.names(r) && v.slot(b_box, b_position) != Some(r) ==> after_move(
            v,
            a_box,
            a_position,
            b_box,
            b_position,
        ).names(r),
{
    if v.has_slot(a_box, a_position) && v.has_slot(b_box, b_position) {
        lemma_offset_in_range(v.boxes as int, v.positions as int, a_box, a_position);
        lemma_offset_in_range(v.boxes as int, v.positions as int, b_box, b_position);
        let a = v.offset(a_box, a_position);
        let b = v.offset(b_box, b_position);
        let swapped = after_swap(v, a_box, a_position, b_box, b_position);
        let moved = after_move(v, a_box, a_position, b_box, b_position);
        if swapped.names(r) {
            let k = choose|k: int| 0 <= k < swapped.slots.len() && swapped.slots[k] == Some(r);
            let src = if k == a { b } else if k == b { a } else { k };
            assert(v.slots[src] == Some(r));
        }
        if v.names(r) {
            let k = choose|k: int| 0 <= k < v.slots.len() && v.slots[k] == Some(r);
            let dst = if k == a { b } else if k == b { a } else { k };
            assert(swapped.slots[dst] == Some(r));
            if v.slot(b_box, b_position) != Some(r) {
                if a_box == b_box && a_position == b_position {
                } else {
                    let to = if k == a { b } else { k };
                    if a == b {
                        lemma_offset_injective(v.positions as int, a_box, a_position, b_box, b_position);
                    }
                    assert(moved.slots[to] == Some(r));
                }
            }
        }
        if moved.names(r) {
            let k = choose|k: int| 0 <= k < moved.slots.len() && moved.slots[k] == Some(r);
            let src = if k == b { a } else { k };
            assert(v.slots[src] == Some(r));
        }
    }
}

/// One edit of a bank.
#[derive(Debug, Clone, Copy, PartialEq, Eq, Structural)]
pub enum SlotEdit {
    Write { box_idx: usize, position: usize, content: Option<Reference> },
    Move { from_box: usize, from_position: usize, to_box: usize, to_position: usize },
    Swap { a_box: usize, a_position: usize, b_box: usize, b_position: usize },
}

/// The first address of the edit that is not in the bank, if any. An
/// edit with such an address is refused.
pub open spec fn edit_refusal(v: BankView, edit: SlotEdit) -> Option<(usize, usize)> {
    match edit {
        SlotEdit::Write { box_idx, position, content } => if v.has_slot(
            box_idx as int,
            position as int,
        ) {
            None
        } else {
            Some((box_idx, position))
        },
        SlotEdit::Move { from_box, from_position, to_box, to_position } => if !v.has_slot(
            from_box as int,
            from_position as int,
        ) {
            Some((from_box, from_position))
        } else if !v.has_slot(to_box as int, to_position as int) {
            Some((to_box, to_position))
        } else {
            None
        },
        SlotEdit::Swap { a_box, a_position, b_box, b_position } => if !v.has_slot(
            a_box as int,
            a_position as int,
        ) {
            Some((a_box, a_position))
        } else if !v.has_slot(b_box as int, b_position as int) {
            Some((b_box, b_position))
        } else {
            None
        },
    }
}

/// The bank after the edit. A refused edit changes nothing.
pub open spec fn edited(v: BankView, edit: SlotEdit) -> BankView {
    match edit {
        SlotEdit::Write { box_idx, position, content } => if v.has_slot(
            box_idx as int,
            position as int,
        ) {
            v.with_slot(box_idx as int, position as int, content)
        } else {
            v
        },
        SlotEdit::Move { from_box, from_position, to_box, to_position } => after_move(
            v,
            from_box as int,
            from_position as int,
            to_box as int,
            to_position as int,
        ),
        SlotEdit::Swap { a_box, a_position, b_box, b_position } => after_swap(
            v,
            a_box as int,
            a_position as int,
            b_box as int,
            b_position as int,
        ),
    }
}

/// What an edit that is not refused hands back: what the slot written
/// held before, for a write and for a move to another slot; nothing else.
pub open spec fn edit_yield(v: BankView, edit: SlotEdit) -> Option<Reference> {
    match edit {
        SlotEdit::Write { box_idx, position, content } => v.slot(box_idx as int, position as int),
        SlotEdit::Move { from_box, from_position, to_box, to_position } => if from_box == to_box
            && from_position == to_position {
            None
        } else {
            v.slot(to_box as int, to_position as int)
        },
        SlotEdit::Swap { a_box, a_position, b_box, b_position } => None,
    }
}

/// An edit leaves the shape as it is.
pub proof fn lemma_edited_wf(v: BankView, edit: SlotEdit)
    requires
        v.wf(),
    ensures
        edited(v, edit).wf(),
        edited(v, edit).boxes == v.boxes,
        edited(v, edit).positions == v.positions,
{
    match edit {
        SlotEdit::Write { box_idx, position, content } => {
            if v.has_slot(box_idx as int, position as int) {
                lemma_offset_in_range(
                    v.boxes as int,
                    v.positions as int,
                    box_idx as int,
                    position as int,
                );
            }
        },
        SlotEdit::Move { from_box, from_position, to_box, to_position } => {
            if v.has_slot(from_box as int, from_position as int) && v.has_slot(
                to_box as int,
                to_position as int,
            ) {
                lemma_offset_in_range(
                    v.boxes as int,
                    v.positions as int,
                    from_box as int,
                    from_position as int,
                );
                lemma_offset_in_range(
                    v.boxes as int,
                    v.positions as int,
                    to_box as int,
                    to_position as int,
                );
            }
        },
        SlotEdit::Swap { a_box, a_position, b_box, b_position } => {
            if v.has_slot(a_box as int, a_position as int) && v.has_slot(
                b_box as int,
                b_position as int,
            ) {
                lemma_offset_in_range(
                    v.boxes as int,
                    v.positions as int,
                    a_box as int,
                    a_position as int,
                );
                lemma_offset_in_range(
                    v.boxes as int,
                    v.positions as int,
                    b_box as int,
                    b_position as int,
                );
            }
        },
    }
}

impl Bank {
    /// Carries out one edit.
    pub fn apply(&mut self, edit: SlotEdit) -> (result: Result<Option<Reference>, Error>)
        requires
            old(self).wf(),
        ensures
            final(self).wf(),
            final(self)@ == edited(old(self)@, edit),
            match edit_refusal(old(self)@, edit) {
                Some((box_idx, position)) => result == Err::<Option<Reference>, Error>(
                    Error::NotFound(Missing::Slot { box_idx, position }),
                ),
                None => result == Ok::<Option<Reference>, Error>(edit_yield(old(self)@, edit)),
            },
    {
        match edit {
            SlotEdit::Write { box_idx, position, content } => self.set_slot(
                box_idx,
                position,
                content,
            ),
            SlotEdit::Move { from_box, from_position, to_box, to_position } => self.move_slot(
                from_box,
                from_position,
                to_box,
                to_position,
            ),
            SlotEdit::Swap { a_box, a_position, b_box, b_position } => {
                match self.swap_slots(a_box, a_position, b_box, b_position) {
                    Ok(()) => Ok(None),
                    Err(e) => Err(e),
                }
            },
        }
    }
}

} // verus!
