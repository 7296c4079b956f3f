//! Non-destructive binary editing: an overlay of overwrite edits on top of an
//! immutable base file.
//!
//! Reads consult the overlay first and fall back to the base, so the original
//! bytes are untouched until the caller saves. Edits are overwrite-only: a
//! field's bytes change in place and never shift what follows, so every offset
//! in a parsed structure tree stays valid. Every change is recorded so it can
//! be undone and redone.
use vstd::prelude::*;

use std::collections::BTreeMap;
use vstd::std_specs::iter::IteratorSpec;

use crate::reader::Endian;
use crate::text::{
    ascii_lower, remove_ws, chars_are, chars_equal, chars_of, decimal, i128_to_string, int_error_message, parse_i128_radix, parse_int, signed_decimal, str_eq, string_of, trim, trim_bounds, usize_to_string,
    without_ws,
};

verus! {

broadcast use vstd::std_specs::btree::group_btree_axioms, vstd::laws_cmp::group_laws_cmp;

/// One recorded overwrite: where it starts, what each byte of the overlay held
/// before (`None` where the base byte showed through), and what was written.
pub struct EditRecord {
    pub offset: usize,
    pub prev: Seq<Option<u8>>,
    pub new: Seq<u8>,
}

/// The model of an edit buffer: the base length, the overrides by offset, and
/// the undo and redo histories (last element = next to undo / redo).
pub struct EditModel {
    pub base_len: usize,
    pub overlay: Map<usize, u8>,
    pub undo: Seq<EditRecord>,
    pub redo: Seq<EditRecord>,
}

/// `ov` with `new` written from `offset` on.
pub open spec fn apply_bytes(ov: Map<usize, u8>, offset: usize, new: Seq<u8>) -> Map<usize, u8> {
    Map::new(
        |k: usize| ov.contains_key(k) || (offset <= k < offset + new.len()),
        |k: usize| if offset <= k < offset + new.len() { new[k - offset] } else { ov[k] },
    )
}

/// `ov` with the range from `offset` put back to `prev` (`None`: no override).
pub open spec fn restore_bytes(ov: Map<usize, u8>, offset: usize, prev: Seq<Option<u8>>) -> Map<usize, u8> {
    Map::new(
        |k: usize| if offset <= k < offset + prev.len() { prev[k - offset] is Some } else { ov.contains_key(k) },
        |k: usize| if offset <= k < offset + prev.len() { prev[k - offset]->0 } else { ov[k] },
    )
}

/// What the overlay holds over `n` offsets from `offset`.
pub open spec fn saved_bytes(ov: Map<usize, u8>, offset: usize, n: nat) -> Seq<Option<u8>> {
    Seq::new(n, |i: int| if ov.contains_key((offset + i) as usize) { Some(ov[(offset + i) as usize]) } else { None })
}

/// The overlay holds `new` over the range from `offset`.
pub open spec fn holds_bytes(ov: Map<usize, u8>, offset: usize, new: Seq<u8>) -> bool {
    forall|i: int| 0 <= i < new.len() ==> #[trigger] ov.contains_key((offset + i) as usize) && ov[(offset + i) as usize] == new[i]
}

/// Undoing the history from the last record back replays consistently: each
/// record's bytes are what the overlay holds when it is undone.
pub open spec fn undo_consistent(ov: Map<usize, u8>, undo: Seq<EditRecord>) -> bool
    decreases undo.len(),
{
    if undo.len() == 0 {
        true
    } else {
        let e = undo.last();
        holds_bytes(ov, e.offset, e.new) && undo_consistent(restore_bytes(ov, e.offset, e.prev), undo.drop_last())
    }
}

/// Redoing the history from the last record back replays consistently: each
/// record's saved bytes are what the overlay holds when it is redone.
pub open spec fn redo_consistent(ov: Map<usize, u8>, redo: Seq<EditRecord>) -> bool
    decreases redo.len(),
{
    if redo.len() == 0 {
        true
    } else {
        let e = redo.last();
        e.prev == saved_bytes(ov, e.offset, e.new.len()) && redo_consistent(apply_bytes(ov, e.offset, e.new), redo.drop_last())
    }
}

/// A record of a non-empty overwrite inside the base.
pub open spec fn record_ok(e: EditRecord, base_len: usize) -> bool {
    &&& 0 < e.new.len()
    &&& e.prev.len() == e.new.len()
    &&& e.offset + e.new.len() <= base_len
}

/// The invariant of an edit buffer.
pub open spec fn model_wf(m: EditModel) -> bool {
    &&& forall|k: usize| #[trigger] m.overlay.contains_key(k) ==> k < m.base_len
    &&& forall|i: int| 0 <= i < m.undo.len() ==> #[trigger] record_ok(m.undo[i], m.base_len)
    &&& forall|i: int| 0 <= i < m.redo.len() ==> #[trigger] record_ok(m.redo[i], m.base_len)
    &&& undo_consistent(m.overlay, m.undo)
    &&& redo_consistent(m.overlay, m.redo)
}

/// Errors from applying an edit.
#[derive(Debug, Clone, Copy, PartialEq, Eq, Structural)]
pub enum EditError {
    /// The edit would extend past the end of the file (overwrite can't grow it).
    OutOfBounds,
}

impl EditError {
    /// The user-facing message.
    pub fn message(&self) -> (s: String)
        ensures
            s@ == "edit extends past the end of the file"@,
    {
        String::from_str("edit extends past the end of the file")
    }
}

/// What `set_bytes` does to a buffer.
pub open spec fn model_set_bytes(m: EditModel, offset: usize, bytes: Seq<u8>) -> Result<EditModel, EditError> {
    if offset + bytes.len() > m.base_len {
        Err(EditError::OutOfBounds)
    } else if bytes.len() == 0 {
        Ok(m)
    } else {
        Ok(EditModel {
            overlay: apply_bytes(m.overlay, offset, bytes),
            undo: m.undo.push(EditRecord { offset, prev: saved_bytes(m.overlay, offset, bytes.len()), new: bytes }),
            redo: Seq::empty(),
            ..m
        })
    }
}

/// What `undo` does to a buffer, and whether there was an edit to undo.
pub open spec fn model_undo(m: EditModel) -> (EditModel, bool) {
    if m.undo.len() == 0 {
        (m, false)
    } else {
        let e = m.undo.last();
        (
            EditModel {
                overlay: restore_bytes(m.overlay, e.offset, e.prev),
                undo: m.undo.drop_last(),
                redo: m.redo.push(e),
                ..m
            },
            true,
        )
    }
}

/// What `redo` does to a buffer, and whether there was an edit to redo.
pub open spec fn model_redo(m: EditModel) -> (EditModel, bool) {
    if m.redo.len() == 0 {
        (m, false)
    } else {
        let e = m.redo.last();
        (
            EditModel {
                overlay: apply_bytes(m.overlay, e.offset, e.new),
                undo: m.undo.push(e),
                redo: m.redo.drop_last(),
                ..m
            },
            true,
        )
    }
}

/// The byte at `o`: the override if there is one, else the base byte.
pub open spec fn edited_byte(ov: Map<usize, u8>, base: Seq<u8>, o: int) -> u8 {
    if ov.contains_key(o as usize) { ov[o as usize] } else { base[o] }
}

/// `base[offset..min(offset + len, base.len())]` with the overrides on top.
pub open spec fn model_read(m: EditModel, base: Seq<u8>, offset: usize, len: usize) -> Seq<u8> {
    let end = if offset + len < base.len() { offset + len } else { base.len() as int };
    Seq::new((end - offset) as nat, |i: int| edited_byte(m.overlay, base, offset + i))
}

/// The whole base with every override applied.
pub open spec fn model_materialize(m: EditModel, base: Seq<u8>) -> Seq<u8> {
    Seq::new(base.len(), |i: int| edited_byte(m.overlay, base, i))
}

proof fn lemma_restore_apply(ov: Map<usize, u8>, offset: usize, new: Seq<u8>)
    requires
        offset + new.len() <= usize::MAX,
    ensures
        restore_bytes(apply_bytes(ov, offset, new), offset, saved_bytes(ov, offset, new.len())) == ov,
{
    let r = restore_bytes(apply_bytes(ov, offset, new), offset, saved_bytes(ov, offset, new.len()));
    assert forall|k: usize| r.contains_key(k) == ov.contains_key(k) by {
        if offset <= k < offset + new.len() {
            assert(((offset + (k - offset)) as usize) == k);
        }
    }
    assert(r =~= ov);
}

proof fn lemma_apply_restore(ov: Map<usize, u8>, offset: usize, prev: Seq<Option<u8>>, new: Seq<u8>)
    requires
        offset + new.len() <= usize::MAX,
        prev.len() == new.len(),
        holds_bytes(ov, offset, new),
    ensures
        apply_bytes(restore_bytes(ov, offset, prev), offset, new) == ov,
{
    let r = apply_bytes(restore_bytes(ov, offset, prev), offset, new);
    assert forall|k: usize| r.contains_key(k) == ov.contains_key(k) by {
        if offset <= k < offset + new.len() {
            let i = k - offset;
            assert(((offset + i) as usize) == k);
            assert(ov.contains_key((offset + i) as usize));
        }
    }
    assert forall|k: usize| r.contains_key(k) implies r[k] == ov[k] by {
        if offset <= k < offset + new.len() {
            let i = k - offset;
            assert(((offset + i) as usize) == k);
            assert(ov.contains_key((offset + i) as usize));
        }
    }
    assert(r =~= ov);
}

proof fn lemma_saved_restore(ov: Map<usize, u8>, offset: usize, prev: Seq<Option<u8>>)
    requires
        offset + prev.len() <= usize::MAX,
    ensures
        saved_bytes(restore_bytes(ov, offset, prev), offset, prev.len()) == prev,
{
    let s = saved_bytes(restore_bytes(ov, offset, prev), offset, prev.len());
    assert forall|i: int| 0 <= i < prev.len() implies s[i] == prev[i] by {
        assert(((offset + i) as usize) - offset == i);
    }
    assert(s =~= prev);
}

proof fn lemma_holds_apply(ov: Map<usize, u8>, offset: usize, new: Seq<u8>)
    requires
        offset + new.len() <= usize::MAX,
    ensures
        holds_bytes(apply_bytes(ov, offset, new), offset, new),
{
    assert forall|i: int| 0 <= i < new.len() implies #[trigger] apply_bytes(ov, offset, new).contains_key((offset + i) as usize)
        && apply_bytes(ov, offset, new)[(offset + i) as usize] == new[i] by {
        assert(((offset + i) as usize) - offset == i);
    }
}

/// A set that fits, then an undo, gives back the overlay and history from
/// before the set.
pub proof fn law_undo_reverts_set(m: EditModel, offset: usize, bytes: Seq<u8>)
    requires
        model_wf(m),
        offset + bytes.len() <= m.base_len,
        bytes.len() > 0,
    ensures
        model_set_bytes(m, offset, bytes) matches Ok(m2) && ({
            let (m3, did) = model_undo(m2);
            &&& did
            &&& m3.overlay == m.overlay
            &&& m3.undo == m.undo
        }),
{
    lemma_restore_apply(m.overlay, offset, bytes);
    let m2 = model_set_bytes(m, offset, bytes)->Ok_0;
    assert(m2.undo.drop_last() =~= m.undo);
}

/// Undo followed by redo gives back the buffer as it was.
pub proof fn law_redo_reverts_undo(m: EditModel)
    requires
        model_wf(m),
        m.undo.len() > 0,
    ensures
        ({
            let (m2, did_undo) = model_undo(m);
            let (m3, did_redo) = model_redo(m2);
            &&& did_undo && did_redo
            &&& m3 == m
        }),
{
    let e = m.undo.last();
    assert(record_ok(m.undo[m.undo.len() - 1], m.base_len));
    lemma_apply_restore(m.overlay, e.offset, e.prev, e.new);
    let m2 = model_undo(m).0;
    assert(m2.undo.push(m2.redo.last()) =~= m.undo);
    assert(m2.redo.drop_last() =~= m.redo);
}

/// Redo followed by undo gives back the buffer as it was.
pub proof fn law_undo_reverts_redo(m: EditModel)
    requires
        model_wf(m),
        m.redo.len() > 0,
    ensures
        ({
            let (m2, did_redo) = model_redo(m);
            let (m3, did_undo) = model_undo(m2);
            &&& did_redo && did_undo
            &&& m3 == m
        }),
{
    let e = m.redo.last();
    assert(record_ok(m.redo[m.redo.len() - 1], m.base_len));
    lemma_restore_apply(m.overlay, e.offset, e.new);
    let m2 = model_redo(m).0;
    assert(m2.redo.push(m2.undo.last()) =~= m.redo);
    assert(m2.undo.drop_last() =~= m.undo);
}

/// After a set that fits, reading the written range gives back the bytes written.
pub proof fn law_read_after_set(m: EditModel, base: Seq<u8>, offset: usize, bytes: Seq<u8>)
    requires
        model_wf(m),
        offset + bytes.len() <= m.base_len,
        offset + bytes.len() <= base.len(),
    ensures
        model_set_bytes(m, offset, bytes) matches Ok(m2) && model_read(m2, base, offset, bytes.len() as usize) == bytes,
{
    let m2 = model_set_bytes(m, offset, bytes)->Ok_0;
    let r = model_read(m2, base, offset, bytes.len() as usize);
    if bytes.len() > 0 {
        assert forall|i: int| 0 <= i < bytes.len() implies r[i] == bytes[i] by {
            assert(((offset + i) as usize) - offset == i);
        }
    }
    assert(r =~= bytes);
}


proof fn lemma_set_keeps_wf(m: EditModel, offset: usize, bytes: Seq<u8>)
    requires
        model_wf(m),
    ensures
        model_set_bytes(m, offset, bytes) matches Ok(m2) ==> model_wf(m2),
{
    if offset + bytes.len() <= m.base_len && bytes.len() > 0 {
        let m2 = model_set_bytes(m, offset, bytes)->Ok_0;
        let e = EditRecord { offset, prev: saved_bytes(m.overlay, offset, bytes.len()), new: bytes };
        lemma_holds_apply(m.overlay, offset, bytes);
        lemma_restore_apply(m.overlay, offset, bytes);
        assert(m2.undo.drop_last() =~= m.undo);
        assert(m2.undo.last() == e);
        assert forall|i: int| 0 <= i < m2.undo.len() implies #[trigger] record_ok(m2.undo[i], m2.base_len) by {
            if i < m.undo.len() {
                assert(m2.undo[i] == m.undo[i]);
            }
        }
    }
}

proof fn lemma_undo_keeps_wf(m: EditModel)
    requires
        model_wf(m),
    ensures
        model_wf(model_undo(m).0),
{
    if m.undo.len() > 0 {
        let e = m.undo.last();
        let m2 = model_undo(m).0;
        assert(record_ok(m.undo[m.undo.len() - 1], m.base_len));
        lemma_saved_restore(m.overlay, e.offset, e.prev);
        lemma_apply_restore(m.overlay, e.offset, e.prev, e.new);
        assert(m2.redo.drop_last() =~= m.redo);
        assert forall|i: int| 0 <= i < m2.undo.len() implies #[trigger] record_ok(m2.undo[i], m2.base_len) by {
            assert(m2.undo[i] == m.undo[i]);
        }
        assert forall|i: int| 0 <= i < m2.redo.len() implies #[trigger] record_ok(m2.redo[i], m2.base_len) by {
            if i < m.redo.len() {
                assert(m2.redo[i] == m.redo[i]);
            }
        }
    }
}

proof fn lemma_redo_keeps_wf(m: EditModel)
    requires
        model_wf(m),
    ensures
        model_wf(model_redo(m).0),
{
    if m.redo.len() > 0 {
        let e = m.redo.last();
        let m2 = model_redo(m).0;
        assert(record_ok(m.redo[m.redo.len() - 1], m.base_len));
        lemma_holds_apply(m.overlay, e.offset, e.new);
        lemma_restore_apply(m.overlay, e.offset, e.new);
        assert(m2.undo.drop_last() =~= m.undo);
        assert forall|i: int| 0 <= i < m2.redo.len() implies #[trigger] record_ok(m2.redo[i], m2.base_len) by {
            assert(m2.redo[i] == m.redo[i]);
        }
        assert forall|i: int| 0 <= i < m2.undo.len() implies #[trigger] record_ok(m2.undo[i], m2.base_len) by {
            if i < m.undo.len() {
                assert(m2.undo[i] == m.undo[i]);
            }
        }
    }
}

/// A map's keys come out in ascending order.
proof fn lemma_keys_ascending(m: &BTreeMap<usize, u8>)
    ensures
        forall|i: int, j: int| 0 <= i < j < m.keys().remaining().len()
            ==> *m.keys().remaining()[i] < *m.keys().remaining()[j],
{
    let keys = m.keys().remaining();
    assert(vstd::laws_cmp::obeys_cmp::<usize>());
    assert(vstd::laws_cmp::obeys_cmp::<&usize>());
    assert(vstd::std_specs::btree::increasing_seq(keys));
    assert forall|i: int, j: int| 0 <= i < j < keys.len() implies *keys[i] < *keys[j] by {
        assert(vstd::std_specs::cmp::OrdSpec::cmp_spec(&keys[i], &keys[j]) is Less);
    }
}

/// A single overwrite operation, with enough history to undo and redo it.
#[derive(Debug, Clone)]
struct Edit {
    offset: usize,
    prev: Vec<Option<u8>>,
    new: Vec<u8>,
}

spec fn record_of(e: Edit) -> EditRecord {
    EditRecord { offset: e.offset, prev: e.prev@, new: e.new@ }
}

spec fn records_of(v: Seq<Edit>) -> Seq<EditRecord> {
    v.map_values(|e: Edit| record_of(e))
}

/// An in-memory overlay of overwrite edits on top of a fixed-length base file.
///
/// The buffer never holds the base bytes: callers pass the base slice to the
/// read and apply methods, so the editor does not depend on how the base is
/// stored.
#[derive(Debug, Clone)]
pub struct EditBuffer {
    base_len: usize,
    overlay: BTreeMap<usize, u8>,
    undo: Vec<Edit>,
    redo: Vec<Edit>,
}

impl View for EditBuffer {
    type V = EditModel;

    closed spec fn view(&self) -> EditModel {
        EditModel {
            base_len: self.base_len,
            overlay: self.overlay@,
            undo: records_of(self.undo@),
            redo: records_of(self.redo@),
        }
    }
}

impl EditBuffer {
    /// Create an empty buffer for a base file of `base_len` bytes.
    pub fn new(base_len: usize) -> (b: Self)
        ensures
            b@ == (EditModel { base_len, overlay: Map::empty(), undo: Seq::empty(), redo: Seq::empty() }),
            model_wf(b@),
    {
        let b = EditBuffer { base_len, overlay: BTreeMap::new(), undo: Vec::new(), redo: Vec::new() };
        proof {
            assert(records_of(b.undo@) =~= Seq::<EditRecord>::empty());
            assert(records_of(b.redo@) =~= Seq::<EditRecord>::empty());
        }
        b
    }

    /// Whether any edits are pending (the buffer differs from the base).
    pub fn is_dirty(&self) -> (r: bool)
        ensures
            r == !self@.overlay.is_empty(),
    {
        !self.overlay.is_empty()
    }

    /// Number of individual bytes that currently differ from the base.
    pub fn dirty_count(&self) -> (n: usize)
        ensures
            n == self@.overlay.len(),
    {
        self.overlay.len()
    }

    pub fn can_undo(&self) -> (r: bool)
        ensures
            r == (self@.undo.len() > 0),
    {
        proof {
            assert(records_of(self.undo@).len() == self.undo@.len());
        }
        self.undo.len() > 0
    }

    pub fn can_redo(&self) -> (r: bool)
        ensures
            r == (self@.redo.len() > 0),
    {
        proof {
            assert(records_of(self.redo@).len() == self.redo@.len());
        }
        self.redo.len() > 0
    }

    /// The edited byte at `offset`, if it has been overridden.
    pub fn overridden(&self, offset: usize) -> (r: Option<u8>)
        ensures
            r == (if self@.overlay.contains_key(offset) { Some(self@.overlay[offset]) } else { None }),
    {
        match self.overlay.get(&offset) {
            Some(b) => Some(*b),
            None => None,
        }
    }

    /// Write `edit.new` into the overlay at `edit.offset`.
    fn apply(&mut self, edit: &Edit)
        requires
            edit.offset + edit.new@.len() <= usize::MAX,
        ensures
            final(self).overlay@ == apply_bytes(old(self).overlay@, edit.offset, edit.new@),
            final(self).base_len == old(self).base_len,
            final(self).undo == old(self).undo,
            final(self).redo == old(self).redo,
    {
        let mut i: usize = 0;
        while i < edit.new.len()
            invariant
                i <= edit.new@.len(),
                edit.offset + edit.new@.len() <= usize::MAX,
                self.base_len == old(self).base_len,
                self.undo == old(self).undo,
                self.redo == old(self).redo,
                self.overlay@ == apply_bytes(old(self).overlay@, edit.offset, edit.new@.take(i as int)),
            decreases edit.new@.len() - i,
        {
            self.overlay.insert(edit.offset + i, edit.new[i]);
            proof {
                assert(self.overlay@ =~= apply_bytes(old(self).overlay@, edit.offset, edit.new@.take(i + 1)));
            }
            i += 1;
        }
        assert(edit.new@.take(edit.new@.len() as int) =~= edit.new@);
    }

    /// Restore the overlay to the state captured in `edit.prev`.
    fn unapply(&mut self, edit: &Edit)
        requires
            edit.offset + edit.prev@.len() <= usize::MAX,
        ensures
            final(self).overlay@ == restore_bytes(old(self).overlay@, edit.offset, edit.prev@),
            final(self).base_len == old(self).base_len,
            final(self).undo == old(self).undo,
            final(self).redo == old(self).redo,
    {
        let mut i: usize = 0;
        while i < edit.prev.len()
            invariant
                i <= edit.prev@.len(),
                edit.offset + edit.prev@.len() <= usize::MAX,
                self.base_len == old(self).base_len,
                self.undo == old(self).undo,
                self.redo == old(self).redo,
                self.overlay@ == restore_bytes(old(self).overlay@, edit.offset, edit.prev@.take(i as int)),
            decreases edit.prev@.len() - i,
        {
            let o = edit.offset + i;
            match edit.prev[i] {
                Some(v) => {
                    self.overlay.insert(o, v);
                },
                None => {
                    self.overlay.remove(&o);
                },
            }
            proof {
                assert(self.overlay@ =~= restore_bytes(old(self).overlay@, edit.offset, edit.prev@.take(i + 1)));
            }
            i += 1;
        }
        assert(edit.prev@.take(edit.prev@.len() as int) =~= edit.prev@);
    }

    /// Overwrite `bytes` starting at `offset`, as a single undoable step that
    /// clears the redo history. An edit that would extend past the end of the
    /// base file is refused (an overwrite can't grow a file).
    pub fn set_bytes(&mut self, offset: usize, bytes: &[u8]) -> (r: Result<(), EditError>)
        requires
            model_wf(old(self)@),
        ensures
            model_wf(final(self)@),
            match model_set_bytes(old(self)@, offset, bytes@) {
                Ok(m) => r is Ok && final(self)@ == m,
                Err(e) => r == Err::<(), EditError>(e) && final(self)@ == old(self)@,
            },
    {
        let end = match offset.checked_add(bytes.len()) {
            Some(e) => e,
            None => return Err(EditError::OutOfBounds),
        };
        if end > self.base_len {
            return Err(EditError::OutOfBounds);
        }
        if bytes.len() == 0 {
            return Ok(());
        }
        let ghost ov0 = self.overlay@;
        let mut prev: Vec<Option<u8>> = Vec::new();
        let mut o = offset;
        while o < end
            invariant
                offset <= o <= end,
                end == offset + bytes@.len(),
                self.overlay@ == ov0,
                prev@ == saved_bytes(ov0, offset, (o - offset) as nat),
            decreases end - o,
        {
            let p = match self.overlay.get(&o) {
                Some(v) => Some(*v),
                None => None,
            };
            proof {
                assert(((offset + (o - offset)) as usize) == o);
            }
            prev.push(p);
            proof {
                assert(prev@ =~= saved_bytes(ov0, offset, (o + 1 - offset) as nat));
            }
            o += 1;
        }
        let edit = Edit { offset, prev, new: vstd::slice::slice_to_vec(bytes) };
        self.apply(&edit);
        proof {
            lemma_set_keeps_wf(old(self)@, offset, bytes@);
            assert(records_of(self.undo@.push(edit)) =~= records_of(self.undo@).push(record_of(edit)));
        }
        self.undo.push(edit);
        self.redo.clear();
        proof {
            assert(records_of(self.redo@) =~= Seq::<EditRecord>::empty());
        }
        Ok(())
    }

    /// Undo the most recent edit. Returns `false` if there was nothing to undo.
    pub fn undo(&mut self) -> (r: bool)
        requires
            model_wf(old(self)@),
        ensures
            model_wf(final(self)@),
            (final(self)@, r) == model_undo(old(self)@),
    {
        proof {
            lemma_undo_keeps_wf(old(self)@);
        }
        match self.undo.pop() {
            Some(edit) => {
                proof {
                    let m = old(self)@;
                    assert(records_of(old(self).undo@).last() == record_of(edit));
                    assert(record_ok(m.undo[m.undo.len() - 1], m.base_len));
                    assert(records_of(self.undo@) =~= records_of(old(self).undo@).drop_last());
                }
                self.unapply(&edit);
                proof {
                    assert(records_of(self.redo@.push(edit)) =~= records_of(self.redo@).push(record_of(edit)));
                }
                self.redo.push(edit);
                true
            },
            None => false,
        }
    }

    /// Redo the most recently undone edit. Returns `false` if nothing to redo.
    pub fn redo(&mut self) -> (r: bool)
        requires
            model_wf(old(self)@),
        ensures
            model_wf(final(self)@),
            (final(self)@, r) == model_redo(old(self)@),
    {
        proof {
            lemma_redo_keeps_wf(old(self)@);
        }
        match self.redo.pop() {
            Some(edit) => {
                proof {
                    let m = old(self)@;
                    assert(records_of(old(self).redo@).last() == record_of(edit));
                    assert(record_ok(m.redo[m.redo.len() - 1], m.base_len));
                    assert(records_of(self.redo@) =~= records_of(old(self).redo@).drop_last());
                }
                self.apply(&edit);
                proof {
                    assert(records_of(self.undo@.push(edit)) =~= records_of(self.undo@).push(record_of(edit)));
                }
                self.undo.push(edit);
                true
            },
            None => false,
        }
    }

    /// Discard all edits and history, reverting to the pristine base.
    pub fn clear(&mut self)
        ensures
            final(self)@ == (EditModel {
                base_len: old(self)@.base_len,
                overlay: Map::empty(),
                undo: Seq::empty(),
                redo: Seq::empty(),
            }),
            model_wf(final(self)@),
    {
        self.overlay.clear();
        self.undo.clear();
        self.redo.clear();
        proof {
            assert(records_of(self.undo@) =~= Seq::<EditRecord>::empty());
            assert(records_of(self.redo@) =~= Seq::<EditRecord>::empty());
        }
    }
}


impl EditBuffer {
    /// The offsets that currently differ from the base, ascending.
    pub fn dirty_offsets(&self) -> (v: Vec<usize>)
        ensures
            v@.to_set() == self@.overlay.dom(),
            forall|i: int, j: int| 0 <= i < j < v@.len() ==> v@[i] < v@[j],
    {
        let mut out: Vec<usize> = Vec::new();
        let ghost keys = self.overlay.keys().remaining();
        proof {
            lemma_keys_ascending(&self.overlay);
        }
        for k in it: self.overlay.keys()
            invariant
                keys == it.seq(),
                keys.unref().to_set() == self.overlay@.dom(),
                forall|i: int, j: int| 0 <= i < j < keys.len() ==> *keys[i] < *keys[j],
                out@ == keys.take(it.index()).map_values(|r: &usize| *r),
        {
            out.push(*k);
        }
        proof {
            assert(keys.take(keys.len() as int) =~= keys);
            assert(out@ =~= keys.unref());
        }
        out
    }

    /// Apply the overrides in place onto a window read from the base file,
    /// where `window_offset` is the window's absolute start.
    pub fn apply_window(&self, window: &mut [u8], window_offset: usize)
        requires
            window_offset + old(window)@.len() <= usize::MAX,
        ensures
            final(window)@.len() == old(window)@.len(),
            forall|i: int| 0 <= i < old(window)@.len() ==> final(window)@[i] == (if self@.overlay.contains_key((window_offset + i) as usize) {
                self@.overlay[(window_offset + i) as usize]
            } else {
                old(window)@[i]
            }),
    {
        let mut i: usize = 0;
        while i < window.len()
            invariant
                i <= window@.len(),
                window@.len() == old(window)@.len(),
                window_offset + old(window)@.len() <= usize::MAX,
                forall|k: int| 0 <= k < i ==> window@[k] == (if self@.overlay.contains_key((window_offset + k) as usize) {
                    self@.overlay[(window_offset + k) as usize]
                } else {
                    old(window)@[k]
                }),
                forall|k: int| i <= k < window@.len() ==> window@[k] == old(window)@[k],
            decreases window@.len() - i,
        {
            match self.overlay.get(&(window_offset + i)) {
                Some(b) => {
                    window[i] = *b;
                },
                None => {},
            }
            i += 1;
        }
    }

    /// Copy `base[offset..offset+len]` (cut at the end of `base`) with the
    /// overrides applied on top.
    pub fn read_with_edits(&self, base: &[u8], offset: usize, len: usize) -> (r: Vec<u8>)
        requires
            offset <= base@.len(),
            offset + len <= usize::MAX,
        ensures
            r@ == model_read(self@, base@, offset, len),
    {
        let end = if offset + len < base.len() { offset + len } else { base.len() };
        let mut out: Vec<u8> = Vec::new();
        let mut o = offset;
        while o < end
            invariant
                offset <= o <= end <= base@.len(),
                end == (if offset + len < base@.len() { offset + len } else { base@.len() as int }),
                out@ =~= Seq::new((o - offset) as nat, |i: int| edited_byte(self@.overlay, base@, offset + i)),
            decreases end - o,
        {
            let b = match self.overlay.get(&o) {
                Some(v) => *v,
                None => base[o],
            };
            out.push(b);
            o += 1;
        }
        out
    }

    /// The full edited file: the base with every override applied.
    pub fn materialize(&self, base: &[u8]) -> (r: Vec<u8>)
        ensures
            r@ == model_materialize(self@, base@),
    {
        let mut out = vstd::slice::slice_to_vec(base);
        let n = out.len();
        let ghost entries = self.overlay.iter().remaining();
        for kv in it: self.overlay.iter()
            invariant
                entries == it.seq(),
                out@.len() == base@.len(),
                forall|i: int| 0 <= i < entries.len() ==> self@.overlay.contains_key(*entries[i].0)
                    && self@.overlay[*entries[i].0] == *entries[i].1,
                entries.no_duplicates(),
                forall|k: usize| #[trigger] self@.overlay.contains_key(k) ==> entries.contains((&k, &self@.overlay[k])),
                forall|i: int| 0 <= i < out@.len() ==> out@[i] == (if exists|j: int| 0 <= j < it.index() && *entries[j].0 == i {
                    self@.overlay[i as usize]
                } else {
                    base@[i]
                }),
        {
            let (o, b) = kv;
            if *o < out.len() {
                out[*o] = *b;
            }
        }
        proof {
            assert forall|i: int| 0 <= i < out@.len() implies out@[i] == edited_byte(self@.overlay, base@, i) by {
                if self@.overlay.contains_key(i as usize) {
                    let k = i as usize;
                    assert(i < n);
                    assert(k as int == i);
                    assert(entries.contains((&k, &self@.overlay[k])));
                    let j = choose|j: int| 0 <= j < entries.len() && entries[j] == (&k, &self@.overlay[k]);
                    assert(*entries[j].0 == i);
                }
            }
            assert(out@ =~= model_materialize(self@, base@));
        }
        out
    }
}


/// The category of value being encoded: the runtime's value kinds, closely
/// enough to turn typed text back into bytes.
#[derive(Debug, Clone, Copy, PartialEq, Eq, Structural)]
pub enum ValueKind {
    Unsigned,
    Signed,
    Float,
    Bool,
    Char,
    Str,
    Bytes,
}

/// The value kind a tag names (the runtime value tags), if any.
pub open spec fn spec_from_tag(tag: Seq<char>) -> Option<ValueKind> {
    if tag == "u"@ || tag == "unsigned"@ {
        Some(ValueKind::Unsigned)
    } else if tag == "i"@ || tag == "signed"@ {
        Some(ValueKind::Signed)
    } else if tag == "f"@ || tag == "float"@ {
        Some(ValueKind::Float)
    } else if tag == "bool"@ {
        Some(ValueKind::Bool)
    } else if tag == "char"@ {
        Some(ValueKind::Char)
    } else if tag == "str"@ || tag == "string"@ {
        Some(ValueKind::Str)
    } else if tag == "bytes"@ {
        Some(ValueKind::Bytes)
    } else {
        None
    }
}

impl ValueKind {
    /// The kind a tag names (the runtime value tags).
    pub fn from_tag(tag: &str) -> (r: Option<Self>)
        ensures
            r == spec_from_tag(tag@),
    {
        if str_eq(tag, "u") || str_eq(tag, "unsigned") {
            Some(ValueKind::Unsigned)
        } else if str_eq(tag, "i") || str_eq(tag, "signed") {
            Some(ValueKind::Signed)
        } else if str_eq(tag, "f") || str_eq(tag, "float") {
            Some(ValueKind::Float)
        } else if str_eq(tag, "bool") {
            Some(ValueKind::Bool)
        } else if str_eq(tag, "char") {
            Some(ValueKind::Char)
        } else if str_eq(tag, "str") || str_eq(tag, "string") {
            Some(ValueKind::Str)
        } else if str_eq(tag, "bytes") {
            Some(ValueKind::Bytes)
        } else {
            None
        }
    }
}

/// 256 to the power `n`.
pub open spec fn pow256(n: nat) -> nat
    decreases n,
{
    if n == 0 { 1 } else { 256 * pow256((n - 1) as nat) }
}

/// The low `n` bytes of `v`, least significant first.
pub open spec fn le_bytes(v: nat, n: nat) -> Seq<u8>
    decreases n,
{
    if n == 0 {
        Seq::empty()
    } else {
        seq![(v % 256) as u8] + le_bytes(v / 256, (n - 1) as nat)
    }
}

/// The low `n` bytes of `v` in the byte order asked for.
pub open spec fn sized(v: nat, n: nat, big: bool) -> Seq<u8> {
    if big { le_bytes(v, n).reverse() } else { le_bytes(v, n) }
}

/// Integer text: an optional `-`, then decimal or `0x`/`0X` hex digits (each
/// part read as `i128::from_str_radix` reads it).
pub open spec fn spec_parse_i128(input: Seq<char>) -> Result<int, Seq<char>> {
    let s = trim(input);
    let neg = s.len() > 0 && s[0] == '-';
    let rest = if neg { s.drop_first() } else { s };
    let hex = rest.len() >= 2 && rest[0] == '0' && (rest[1] == 'x' || rest[1] == 'X');
    let mag = if hex {
        parse_int(rest.subrange(2, rest.len() as int), 16, true, i128::MIN as int, i128::MAX as int)
    } else {
        parse_int(rest, 10, true, i128::MIN as int, i128::MAX as int)
    };
    match mag {
        Err(e) => Err(int_error_message(e)),
        // Negating the least value wraps back to it.
        Ok(m) => Ok(if neg { if m == i128::MIN { m } else { -m } } else { m }),
    }
}

pub open spec fn spec_encode_uint(input: Seq<char>, size: usize, big: bool) -> Result<Seq<u8>, Seq<char>> {
    match spec_parse_i128(input) {
        Err(e) => Err(e),
        Ok(v) => if v < 0 {
            Err("value must be non-negative for an unsigned field"@)
        } else if v > (if size >= 16 { i128::MAX as int } else { pow256(size as nat) - 1 }) {
            Err(signed_decimal(v) + " does not fit in a "@ + decimal(size as nat) + "-byte unsigned field"@)
        } else {
            Ok(sized(v as nat, size as nat, big))
        },
    }
}

pub open spec fn spec_encode_int(input: Seq<char>, size: usize, big: bool) -> Result<Seq<u8>, Seq<char>> {
    let half = pow256(size as nat) / 2;
    match spec_parse_i128(input) {
        Err(e) => Err(e),
        Ok(v) => if v < -half || v > half - 1 {
            Err(signed_decimal(v) + " does not fit in a "@ + decimal(size as nat) + "-byte signed field"@)
        } else {
            // Two's complement in `size` bytes.
            Ok(sized((if v < 0 { v + pow256(size as nat) } else { v }) as nat, size as nat, big))
        },
    }
}

/// `s` with every leading copy of `p` removed (`str::trim_start_matches`).
pub open spec fn strip_all_prefix(s: Seq<char>, p: Seq<char>) -> Seq<char>
    decreases s.len(),
{
    if p.len() > 0 && s.len() >= p.len() && s.take(p.len() as int) == p {
        strip_all_prefix(s.skip(p.len() as int), p)
    } else {
        s
    }
}

/// `s` without its whitespace characters.

/// The value of an ASCII hex digit byte, if it is one.
pub open spec fn hex_byte_value(b: u8) -> Option<u8> {
    if 0x30 <= b <= 0x39 {
        Some((b - 0x30) as u8)
    } else if 0x61 <= b <= 0x66 {
        Some((b - 0x61 + 10) as u8)
    } else if 0x41 <= b <= 0x46 {
        Some((b - 0x41 + 10) as u8)
    } else {
        None
    }
}

/// Two bytes of hex text read as `u8::from_str_radix(.., 16)` reads them: a
/// leading `+` is a sign.
pub open spec fn hex_pair(b0: u8, b1: u8) -> Option<u8> {
    if b0 == 0x2B {
        hex_byte_value(b1)
    } else {
        match (hex_byte_value(b0), hex_byte_value(b1)) {
            (Some(h), Some(l)) => Some((h * 16 + l) as u8),
            _ => None,
        }
    }
}

/// A UTF-8 continuation byte (never the start of a character).
pub open spec fn is_continuation(b: u8) -> bool {
    0x80 <= b < 0xC0
}

/// The byte pairs of hex text read in order; the first bad pair is the error.
pub open spec fn hex_pairs(b: Seq<u8>) -> Result<Seq<u8>, Seq<char>>
    decreases b.len(),
{
    if b.len() < 2 {
        Ok(Seq::empty())
    } else {
        match hex_pair(b[0], b[1]) {
            None => Err("invalid digit found in string"@),
            Some(v) => match hex_pairs(b.subrange(2, b.len() as int)) {
                Ok(r) => Ok(seq![v] + r),
                Err(e) => Err(e),
            },
        }
    }
}

/// Reading the pairs never slices through a character: every pair read
/// before the first bad one starts and ends on a character boundary.
pub open spec fn hex_pairs_on_boundaries(b: Seq<u8>) -> bool
    decreases b.len(),
{
    if b.len() < 2 {
        true
    } else {
        &&& !is_continuation(b[0])
        &&& (b.len() == 2 || !is_continuation(b[2]))
        &&& (hex_pair(b[0], b[1]) is None || hex_pairs_on_boundaries(b.subrange(2, b.len() as int)))
    }
}

/// The text of a hex field: trimmed, leading `0x` then `0X` runs removed, and
/// whitespace dropped.
pub open spec fn hex_field_text(input: Seq<char>) -> Seq<char> {
    remove_ws(strip_all_prefix(strip_all_prefix(trim(input), "0x"@), "0X"@))
}

/// Hex text as bytes (spaces optional, `0x` prefix allowed).
pub open spec fn spec_parse_hex_field(input: Seq<char>) -> Result<Seq<u8>, Seq<char>> {
    let b = vstd::utf8::encode_utf8(hex_field_text(input));
    if b.len() % 2 != 0 {
        Err("hex must have an even number of digits"@)
    } else {
        hex_pairs(b)
    }
}

/// `bytes` zero-padded to `size`.
pub open spec fn padded(bytes: Seq<u8>, size: nat) -> Seq<u8> {
    bytes + Seq::new((size - bytes.len()) as nat, |i: int| 0u8)
}

/// A one-byte value in a `size`-byte field, as an unsigned number of that
/// width: the byte first (little-endian) or last (big-endian), the rest zero.
/// A field of no bytes still gets the one byte.
pub open spec fn byte_in_field(v: u8, size: nat, big: bool) -> Seq<u8> {
    if size == 0 {
        seq![v]
    } else {
        let zeros = Seq::new((size - 1) as nat, |i: int| 0u8);
        if big {
            zeros.push(v)
        } else {
            seq![v] + zeros
        }
    }
}

/// What encoding a typed value gives (every kind but floats).
pub open spec fn spec_encode_value(kind: ValueKind, size: usize, endian: Endian, input: Seq<char>) -> Result<Seq<u8>, Seq<char>> {
    let big = endian == Endian::Big;
    let s = trim(input);
    match kind {
        ValueKind::Unsigned => spec_encode_uint(s, size, big),
        ValueKind::Signed => spec_encode_int(s, size, big),
        ValueKind::Bool => {
            let low = s.map_values(|c: char| ascii_lower(c));
            if low == "true"@ || low == "1"@ {
                Ok(byte_in_field(1u8, size as nat, big))
            } else if low == "false"@ || low == "0"@ {
                Ok(byte_in_field(0u8, size as nat, big))
            } else {
                Err("bool must be true/false or 1/0"@)
            }
        },
        ValueKind::Char => if s.len() == 0 {
            Err("char cannot be empty"@)
        } else if s.len() > 1 {
            Err("char must be a single character"@)
        } else if (s[0] as u32) > 0xFF {
            Err("char must be a single byte (0x00–0xFF)"@)
        } else {
            Ok(byte_in_field((s[0] as u32) as u8, size as nat, big))
        },
        ValueKind::Str => {
            let b = vstd::utf8::encode_utf8(s);
            if b.len() > size {
                Err("string is "@ + decimal(b.len()) + " bytes but field holds "@ + decimal(size as nat))
            } else {
                Ok(padded(b, size as nat))
            }
        },
        ValueKind::Bytes => match spec_parse_hex_field(s) {
            Err(e) => Err(e),
            Ok(b) => if b.len() > size {
                Err(decimal(b.len()) + " bytes given but field holds "@ + decimal(size as nat))
            } else {
                Ok(padded(b, size as nat))
            },
        },
        ValueKind::Float => Err(Seq::empty()),
    }
}

/// `le_bytes(v, n)` has `n` bytes.
pub proof fn lemma_le_bytes_len(v: nat, n: nat)
    ensures
        le_bytes(v, n).len() == n,
    decreases n,
{
    if n > 0 {
        lemma_le_bytes_len(v / 256, (n - 1) as nat);
    }
}

/// Every encoding has exactly `size` bytes, so it can overwrite the field in
/// place; the one exception is a bool or a char for a field of no bytes,
/// which is still its one byte.
pub proof fn lemma_encoding_fills_field(kind: ValueKind, size: usize, endian: Endian, input: Seq<char>)
    ensures
        spec_encode_value(kind, size, endian, input) matches Ok(b) ==> b.len() == encoded_len(kind, size),
{
    lemma_le_bytes_len(0, size as nat);
    assert forall|v: nat| #[trigger] le_bytes(v, size as nat).len() == size by {
        lemma_le_bytes_len(v, size as nat);
    }
}

/// How many bytes an encoding of `kind` for a `size`-byte field has: `size`,
/// but one for a bool or a char when `size` is 0.
pub open spec fn encoded_len(kind: ValueKind, size: usize) -> nat {
    if size == 0 && (kind == ValueKind::Bool || kind == ValueKind::Char) { 1 } else { size as nat }
}

/// `r` is `b` written into a `size`-byte field: when `b` fits, exactly `size`
/// bytes holding `b` first and zeros after it; when it does not, an error.
pub open spec fn fills_field(r: Result<Seq<u8>, Seq<char>>, b: Seq<u8>, size: nat) -> bool {
    if b.len() <= size {
        r matches Ok(x) && x.len() == size && x.take(b.len() as int) == b && forall|i: int|
            b.len() <= i < size ==> #[trigger] x[i] == 0u8
    } else {
        r is Err
    }
}

/// Bytes and text go into a field as themselves: hex input that decodes to
/// `b` (and text whose UTF-8 is `b`) encodes to `b` zero-padded to the field's
/// `size` whenever `b` fits, including when it fills the field exactly, and is
/// refused only when `b` is longer than the field. Hex that does not decode is
/// refused with the decoder's message.
pub proof fn law_bytes_and_text_fill_their_field(size: usize, endian: Endian, input: Seq<char>)
    ensures
        match spec_parse_hex_field(trim(input)) {
            Err(e) => spec_encode_value(ValueKind::Bytes, size, endian, input) == Err::<Seq<u8>, Seq<char>>(e),
            Ok(b) => fills_field(spec_encode_value(ValueKind::Bytes, size, endian, input), b, size as nat),
        },
        fills_field(spec_encode_value(ValueKind::Str, size, endian, input), vstd::utf8::encode_utf8(trim(input)), size as nat),
{
    let t = vstd::utf8::encode_utf8(trim(input));
    if t.len() <= size {
        assert(padded(t, size as nat).take(t.len() as int) =~= t);
    }
    if let Ok(b) = spec_parse_hex_field(trim(input)) {
        if b.len() <= size {
            assert(padded(b, size as nat).take(b.len() as int) =~= b);
        }
    }
}

/// What `encode_value` asks of its inputs: the widths the encoders handle, and
/// hex text whose pairs fall on character boundaries.
pub open spec fn encodable(kind: ValueKind, size: usize, input: Seq<char>) -> bool {
    &&& kind != ValueKind::Float
    &&& kind == ValueKind::Unsigned ==> size <= 16
    &&& kind == ValueKind::Signed ==> 1 <= size <= 15
    &&& kind == ValueKind::Bytes ==> hex_pairs_on_boundaries(vstd::utf8::encode_utf8(hex_field_text(trim(input))))
}


/// Take the low `size` bytes of `v` in the byte order asked for.
pub(crate) fn sized_bytes(v: u128, size: usize, big: bool) -> (r: Vec<u8>)
    requires
        size <= 16,
    ensures
        r@ == sized(v as nat, size as nat, big),
{
    let mut le: Vec<u8> = Vec::new();
    let mut x = v;
    let mut k: usize = 0;
    while k < size
        invariant
            k <= size,
            le@.len() == k,
            le@ + le_bytes(x as nat, (size - k) as nat) == le_bytes(v as nat, size as nat),
        decreases size - k,
    {
        proof {
            assert(le_bytes(x as nat, (size - k) as nat) == seq![(x % 256) as u8] + le_bytes(
                (x / 256) as nat,
                (size - k - 1) as nat,
            ));
            assert(le@.push((x % 256) as u8) + le_bytes((x / 256) as nat, (size - k - 1) as nat) =~= le@
                + le_bytes(x as nat, (size - k) as nat));
        }
        le.push((x % 256) as u8);
        x = x / 256;
        k += 1;
    }
    assert(le@ =~= le_bytes(v as nat, size as nat));
    if !big {
        return le;
    }
    let mut out: Vec<u8> = Vec::new();
    let mut i: usize = 0;
    while i < size
        invariant
            i <= size,
            le@.len() == size,
            out@ =~= Seq::new(i as nat, |j: int| le@[size - 1 - j]),
        decreases size - i,
    {
        out.push(le[size - 1 - i]);
        i += 1;
    }
    assert(out@ =~= le@.reverse());
    out
}

/// 256 to the power `n`, for `n` up to 15.
fn pow256_exec(n: usize) -> (p: u128)
    requires
        n <= 15,
    ensures
        p == pow256(n as nat),
        1 <= p <= pow256(15),
        pow256(15) == 0x1_0000_0000_0000_0000_0000_0000_0000_00,
{
    let mut p: u128 = 1;
    let mut k: usize = 0;
    proof {
        lemma_pow256_mono(0, 15);
        reveal_with_fuel(pow256, 16);
        assert(pow256(15) == 0x1_0000_0000_0000_0000_0000_0000_0000_00);
    }
    while k < n
        invariant
            k <= n <= 15,
            p == pow256(k as nat),
            pow256(k as nat) <= pow256(15),
            pow256(15) == 0x1_0000_0000_0000_0000_0000_0000_0000_00,
        decreases n - k,
    {
        proof {
            lemma_pow256_mono((k + 1) as nat, 15);
        }
        p = p * 256;
        k += 1;
    }
    proof {
        lemma_pow256_mono(n as nat, 15);
    }
    p
}

proof fn lemma_pow256_mono(a: nat, b: nat)
    requires
        a <= b,
    ensures
        pow256(a) <= pow256(b),
        pow256(a) >= 1,
    decreases b,
{
    if b > 0 {
        if a < b {
            lemma_pow256_mono(a, (b - 1) as nat);
        } else {
            lemma_pow256_mono((a - 1) as nat, (b - 1) as nat);
        }
    }
}

/// Parse integer text: an optional `-`, then decimal or `0x`/`0X` hex.
fn parse_i128(input: &[char]) -> (r: Result<i128, String>)
    ensures
        match spec_parse_i128(input@) {
            Ok(v) => r matches Ok(x) && x == v,
            Err(e) => r matches Err(x) && x@ == e,
        },
{
    let (i, j) = trim_bounds(input);
    let s = vstd::slice::slice_subrange(input, i, j);
    let neg = s.len() > 0 && s[0] == '-';
    let rest = if neg { vstd::slice::slice_subrange(s, 1, s.len()) } else { s };
    proof {
        if neg {
            assert(rest@ =~= s@.drop_first());
        }
    }
    let hex = rest.len() >= 2 && rest[0] == '0' && (rest[1] == 'x' || rest[1] == 'X');
    let mag = if hex {
        parse_i128_radix(vstd::slice::slice_subrange(rest, 2, rest.len()), 16)
    } else {
        parse_i128_radix(rest, 10)
    };

    match mag {
        Err(e) => Err(e.message()),
        Ok(m) => Ok(if neg { if m == i128::MIN { m } else { -m } } else { m }),
    }
}

fn encode_uint(input: &[char], size: usize, big: bool) -> (r: Result<Vec<u8>, String>)
    requires
        size <= 16,
    ensures
        match spec_encode_uint(input@, size, big) {
            Ok(b) => r matches Ok(x) && x@ == b,
            Err(e) => r matches Err(x) && x@ == e,
        },
{
    let v = match parse_i128(input) {
        Ok(v) => v,
        Err(e) => return Err(e),
    };
    if v < 0 {
        return Err(String::from_str("value must be non-negative for an unsigned field"));
    }
    let max: i128 = if size >= 16 { i128::MAX } else { (pow256_exec(size) - 1) as i128 };
    if v > max {
        let mut m = i128_to_string(v);
        m.append(" does not fit in a ");
        m.append(usize_to_string(size).as_str());
        m.append("-byte unsigned field");
        return Err(m);
    }
    Ok(sized_bytes(v as u128, size, big))
}

fn encode_int(input: &[char], size: usize, big: bool) -> (r: Result<Vec<u8>, String>)
    requires
        1 <= size <= 15,
    ensures
        match spec_encode_int(input@, size, big) {
            Ok(b) => r matches Ok(x) && x@ == b,
            Err(e) => r matches Err(x) && x@ == e,
        },
{
    let v = match parse_i128(input) {
        Ok(v) => v,
        Err(e) => return Err(e),
    };
    let p = pow256_exec(size);
    proof {
        reveal_with_fuel(pow256, 16);
        assert(pow256(15) == 0x1_0000_0000_0000_0000_0000_0000_0000_00);
    }
    let half = (p / 2) as i128;
    if v < -half || v > half - 1 {
        let mut m = i128_to_string(v);
        m.append(" does not fit in a ");
        m.append(usize_to_string(size).as_str());
        m.append("-byte signed field");
        return Err(m);
    }
    // Two's complement in `size` bytes.
    let u: u128 = if v < 0 { (v + (p as i128)) as u128 } else { v as u128 };
    Ok(sized_bytes(u, size, big))
}

/// `s` with every leading copy of `p` removed.
fn strip_all_prefix_exec(s: &[char], p: &str) -> (r: Vec<char>)
    ensures
        r@ == strip_all_prefix(s@, p@),
{
    let pv = chars_of(p);
    let mut i: usize = 0;
    if pv.len() == 0 {
        return vstd::slice::slice_to_vec(s);
    }
    assert(s@.subrange(0, s@.len() as int) =~= s@);
    loop
        invariant
            i <= s@.len(),
            pv@ == p@,
            pv@.len() > 0,
            strip_all_prefix(s@, p@) == strip_all_prefix(s@.subrange(i as int, s@.len() as int), p@),
        decreases s@.len() - i,
    {
        let rest = vstd::slice::slice_subrange(s, i, s.len());
        if rest.len() >= pv.len() && chars_equal(vstd::slice::slice_subrange(rest, 0, pv.len()), pv.as_slice()) {
            assert(rest@.take(pv@.len() as int) =~= rest@.subrange(0, pv@.len() as int));
            assert(rest@.skip(pv@.len() as int) =~= s@.subrange(i + pv@.len(), s@.len() as int));
            i = i + pv.len();
        } else {
            assert(rest@.take(pv@.len() as int) =~= rest@.subrange(0, pv@.len() as int) || rest@.len() < pv@.len());
            return vstd::slice::slice_to_vec(rest);
        }
    }
}

fn hex_byte(b: u8) -> (r: Option<u8>)
    ensures
        r == hex_byte_value(b),
{
    if 0x30 <= b && b <= 0x39 {
        Some(b - 0x30)
    } else if 0x61 <= b && b <= 0x66 {
        Some(b - 0x61 + 10)
    } else if 0x41 <= b && b <= 0x46 {
        Some(b - 0x41 + 10)
    } else {
        None
    }
}

/// Parse hex text (spaces optional, `0x` prefix allowed) into bytes.
fn parse_hex(input: &[char]) -> (r: Result<Vec<u8>, String>)
    ensures
        match spec_parse_hex_field(input@) {
            Ok(b) => r matches Ok(x) && x@ == b,
            Err(e) => r matches Err(x) && x@ == e,
        },
{
    let (i, j) = trim_bounds(input);
    let t = vstd::slice::slice_subrange(input, i, j);
    let a = strip_all_prefix_exec(t, "0x");
    let b = strip_all_prefix_exec(a.as_slice(), "0X");
    let cleaned = string_of(without_ws(b.as_slice()).as_slice());
    let bytes = cleaned.as_str().as_bytes();
    assert(cleaned@ == hex_field_text(input@));
    if bytes.len() % 2 != 0 {
        return Err(String::from_str("hex must have an even number of digits"));
    }
    let mut out: Vec<u8> = Vec::new();
    let mut k: usize = 0;
    assert(bytes@.subrange(0, bytes@.len() as int) =~= bytes@);
    assert(forall|r: Seq<u8>| Seq::<u8>::empty() + r == r) by {
        assert forall|r: Seq<u8>| Seq::<u8>::empty() + r == r by {
            assert(Seq::<u8>::empty() + r =~= r);
        }
    }
    while k < bytes.len()
        invariant
            k <= bytes@.len(),
            spec_parse_hex_field(input@) == hex_pairs(bytes@),
            k % 2 == 0,
            bytes@.len() % 2 == 0,
            match hex_pairs(bytes@) {
                Ok(all) => match hex_pairs(bytes@.subrange(k as int, bytes@.len() as int)) {
                    Ok(r) => all == out@ + r,
                    Err(_) => false,
                },
                Err(e) => hex_pairs(bytes@.subrange(k as int, bytes@.len() as int)) == Err::<Seq<u8>, Seq<char>>(e),
            },
        decreases bytes@.len() - k,
    {
        let ghost rest = bytes@.subrange(k as int, bytes@.len() as int);
        assert(rest.subrange(2, rest.len() as int) =~= bytes@.subrange(k + 2, bytes@.len() as int));
        let v = if bytes[k] == 0x2B {
            hex_byte(bytes[k + 1])
        } else {
            match (hex_byte(bytes[k]), hex_byte(bytes[k + 1])) {
                (Some(h), Some(l)) => Some(h * 16 + l),
                _ => None,
            }
        };
        match v {
            None => return Err(String::from_str("invalid digit found in string")),
            Some(x) => {
                proof {
                    if let Ok(r2) = hex_pairs(bytes@.subrange(k + 2, bytes@.len() as int)) {
                        assert(out@.push(x) + r2 =~= out@ + (seq![x] + r2));
                    }
                }
                out.push(x);
            },
        }
        k += 2;
    }
    proof {
        assert(bytes@.subrange(k as int, bytes@.len() as int).len() == 0);
        assert(out@ + Seq::<u8>::empty() =~= out@);
    }
    Ok(out)
}

/// `bytes` zero-padded to `size` bytes.
fn pad_to(bytes: &[u8], size: usize) -> (r: Vec<u8>)
    requires
        bytes@.len() <= size,
    ensures
        r@ == padded(bytes@, size as nat),
{
    let mut out = vstd::slice::slice_to_vec(bytes);
    while out.len() < size
        invariant
            bytes@.len() <= out@.len() <= size,
            out@ =~= padded(bytes@, out@.len() as nat),
        decreases size - out@.len(),
    {
        out.push(0u8);
    }
    out
}

/// Write the byte `v` into a `size`-byte field.
fn byte_field(v: u8, size: usize, big: bool) -> (r: Vec<u8>)
    ensures
        r@ == byte_in_field(v, size as nat, big),
{
    let mut out: Vec<u8> = Vec::new();
    if !big || size == 0 {
        out.push(v);
    }
    if size == 0 {
        return out;
    }
    let mut k: usize = 1;
    while k < size
        invariant
            1 <= k <= size,
            out@ =~= (if big { Seq::new((k - 1) as nat, |i: int| 0u8) } else { seq![v] + Seq::new((k - 1) as nat, |i: int| 0u8) }),
        decreases size - k,
    {
        out.push(0u8);
        k += 1;
    }
    if big {
        out.push(v);
    }
    out
}

/// Whether `encode_value` handles these inputs (see [`encodable`]).
pub fn can_encode(kind: ValueKind, size: usize, input: &str) -> (b: bool)
    ensures
        b == encodable(kind, size, input@),
{
    match kind {
        ValueKind::Float => false,
        ValueKind::Unsigned => size <= 16,
        ValueKind::Signed => 1 <= size && size <= 15,
        ValueKind::Bytes => {
            let v = chars_of(input);
            let (i, j) = trim_bounds(v.as_slice());
            let s = vstd::slice::slice_subrange(v.as_slice(), i, j);
            let (i2, j2) = trim_bounds(s);
            let t = vstd::slice::slice_subrange(s, i2, j2);
            let a = strip_all_prefix_exec(t, "0x");
            let b = strip_all_prefix_exec(a.as_slice(), "0X");
            let cleaned = string_of(without_ws(b.as_slice()).as_slice());
            pairs_on_boundaries(cleaned.as_str().as_bytes())
        },
        _ => true,
    }
}

fn pairs_on_boundaries(b: &[u8]) -> (r: bool)
    ensures
        r == hex_pairs_on_boundaries(b@),
{
    let mut k: usize = 0;
    assert(b@.subrange(0, b@.len() as int) =~= b@);
    while k < b.len() && b.len() - k > 1
        invariant
            k <= b@.len(),
            hex_pairs_on_boundaries(b@) == hex_pairs_on_boundaries(b@.subrange(k as int, b@.len() as int)),
        decreases b@.len() - k,
    {
        let ghost rest = b@.subrange(k as int, b@.len() as int);
        assert(rest.subrange(2, rest.len() as int) =~= b@.subrange(k + 2, b@.len() as int));
        if 0x80 <= b[k] && b[k] < 0xC0 {
            return false;
        }
        if k + 2 < b.len() && 0x80 <= b[k + 2] && b[k + 2] < 0xC0 {
            return false;
        }
        let ok = if b[k] == 0x2B {
            hex_byte(b[k + 1]).is_some()
        } else {
            hex_byte(b[k]).is_some() && hex_byte(b[k + 1]).is_some()
        };
        if !ok {
            return true;
        }
        k += 2;
    }
    true
}

/// Encode a user-entered value into exactly `size` bytes for the given kind
/// and byte order.
///
/// The result is always `size` bytes long so it can overwrite the field in
/// place. Numbers must fit the width; strings and hex bytes must fit the field
/// and are zero-padded to fill it; a bool or a char is its byte written as an
/// unsigned number of the field's width (for a field of no bytes, the byte
/// alone). Floats are encoded by the caller.
pub fn encode_value(kind: ValueKind, size: usize, endian: Endian, input: &str) -> (r: Result<Vec<u8>, String>)
    requires
        encodable(kind, size, input@),
    ensures
        match spec_encode_value(kind, size, endian, input@) {
            Ok(b) => r matches Ok(x) && x@ == b,
            Err(e) => r matches Err(x) && x@ == e,
        },
        r matches Ok(x) ==> x@.len() == encoded_len(kind, size),
{
    proof {
        lemma_encoding_fills_field(kind, size, endian, input@);
    }
    let big = match endian {
        Endian::Big => true,
        Endian::Little => false,
    };
    let v = chars_of(input);
    let (i, j) = trim_bounds(v.as_slice());
    let s = vstd::slice::slice_subrange(v.as_slice(), i, j);
    match kind {
        ValueKind::Unsigned => encode_uint(s, size, big),
        ValueKind::Signed => encode_int(s, size, big),
        ValueKind::Bool => {
            let mut low: Vec<char> = Vec::new();
            let mut k: usize = 0;
            while k < s.len()
                invariant
                    k <= s@.len(),
                    low@ =~= s@.take(k as int).map_values(|c: char| ascii_lower(c)),
                decreases s@.len() - k,
            {
                let c = s[k];
                let l = if 'A' <= c && c <= 'Z' { ((c as u32) + 32) as u8 as char } else { c };
                low.push(l);
                k += 1;
            }
            assert(s@.take(s@.len() as int) =~= s@);
            if chars_are(low.as_slice(), "true") || chars_are(low.as_slice(), "1") {
                Ok(byte_field(1u8, size, big))
            } else if chars_are(low.as_slice(), "false") || chars_are(low.as_slice(), "0") {
                Ok(byte_field(0u8, size, big))
            } else {
                Err(String::from_str("bool must be true/false or 1/0"))
            }
        },
        ValueKind::Char => {
            if s.len() == 0 {
                return Err(String::from_str("char cannot be empty"));
            }
            if s.len() > 1 {
                return Err(String::from_str("char must be a single character"));
            }
            let code = s[0] as u32;
            if code > 0xFF {
                return Err(String::from_str("char must be a single byte (0x00–0xFF)"));
            }
            Ok(byte_field(code as u8, size, big))
        },
        ValueKind::Str => {
            let t = string_of(s);
            let bytes = t.as_str().as_bytes();
            if bytes.len() > size {
                let mut m = String::from_str("string is ");
                m.append(usize_to_string(bytes.len()).as_str());
                m.append(" bytes but field holds ");
                m.append(usize_to_string(size).as_str());
                return Err(m);
            }
            Ok(pad_to(bytes, size))
        },
        ValueKind::Bytes => {
            let bytes = match parse_hex(s) {
                Ok(b) => b,
                Err(e) => return Err(e),
            };
            if bytes.len() > size {
                let mut m = usize_to_string(bytes.len());
                m.append(" bytes given but field holds ");
                m.append(usize_to_string(size).as_str());
                return Err(m);
            }
            Ok(pad_to(bytes.as_slice(), size))
        },
        ValueKind::Float => Err(String::new()),
    }
}

} // verus!
