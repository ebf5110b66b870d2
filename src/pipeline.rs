use vstd::prelude::*;

use crate::edit_log::{shifted_down, shifted_up, CellWrite, EditMap, MAX_FRAME};
use crate::simulation::{apply_writes, lemma_state_depends_on_prefix, state_at, StepFunction};
use crate::timeline::{hotspot_index, law_insert_delete_restores, Timeline};
use crate::variable::{PyAddress, PyObjectBehavior, PyVariable, VariableView};
use vstd::string::{StrSliceExecFns, StringExecFns};

verus! {

/// Why a pipeline call failed.
#[derive(Clone, Copy, Debug, PartialEq, Eq, Structural)]
pub enum PipelineError {
    /// An object or surface slot index past the end of its table.
    OutOfRange,
    /// An object that is not active, or that runs another behavior.
    InactiveReference,
    /// An unknown field, a missing qualifier, a cell outside memory, or a
    /// value of the wrong kind for its field.
    ResolutionFailure,
    /// The pipeline was invalidated because its program was unloaded.
    InvalidatedHandle,
}

/// A value read from or written to a field: one variant per primitive kind.
/// A float travels as the bits of an `f64`.
#[derive(Clone, Copy, Debug, PartialEq, Eq, Structural)]
pub enum Value {
    Int(i64),
    Float(u64),
    Address(PyAddress),
}

/// The primitive kind of a field; an integer field has a width in bytes.
#[derive(Clone, Copy, Debug, PartialEq, Eq, Structural)]
pub enum FieldKind {
    Int { bytes: u8, signed: bool },
    Float,
    Address,
}

/// Where a field lives: once in memory, in each object slot, or in each
/// surface slot.
#[derive(Clone, Copy, Debug, PartialEq, Eq, Structural)]
pub enum Placement {
    Global,
    Object,
    Surface,
}

/// A named field: its cell offset (from the start of memory, of an object
/// slot or of a surface slot), its kind and its placement, and how it is
/// shown: a label, the bit it stands for if it is a flag, and its group.
#[derive(Debug)]
pub struct FieldDef {
    pub name: String,
    pub offset: usize,
    pub kind: FieldKind,
    pub placement: Placement,
    pub label: Option<String>,
    pub flag: Option<u64>,
    pub group: String,
}

/// The names of the fields in group `g`, in layout order.
pub open spec fn group_names(fields: Seq<FieldDef>, g: Seq<char>) -> Seq<Seq<char>>
    decreases fields.len(),
{
    if fields.len() == 0 {
        Seq::empty()
    } else {
        let rest = group_names(fields.drop_last(), g);
        if fields.last().group@ == g {
            rest.push(fields.last().name@)
        } else {
            rest
        }
    }
}

/// Where the fields of the simulated memory are.
#[derive(Debug)]
pub struct DataLayout {
    pub fields: Vec<FieldDef>,
    pub object_base: usize,
    pub object_stride: usize,
    pub object_count: usize,
    /// The cell, within an object slot, that is zero when the object is inactive.
    pub active_offset: usize,
    /// The cell, within an object slot, that holds its behavior's address.
    pub behavior_offset: usize,
    pub surface_base: usize,
    pub surface_stride: usize,
    pub surface_count: usize,
    /// The cell that holds how many surface slots are live: slots from
    /// that number on are inactive.
    pub surface_live_cell: usize,
    /// The program's named constants, names as ASCII bytes.
    pub constants: Vec<(Vec<u8>, i64)>,
}

/// The position of the first field called `name`, if any.
pub open spec fn field_index(fields: Seq<FieldDef>, name: Seq<char>) -> Option<int> {
    if exists|i: int| 0 <= i < fields.len() && (#[trigger] fields[i]).name@ == name {
        Some(choose|i: int| 0 <= i < fields.len() && (#[trigger] fields[i]).name@ == name && forall|k: int|
            0 <= k < i ==> (#[trigger] fields[k]).name@ != name)
    } else {
        None
    }
}

/// `Ok` with cell `c` and `kind` if `c` lies in `mem`.
pub open spec fn cell_in(mem: Seq<i64>, c: int, kind: FieldKind) -> Result<
    (int, FieldKind),
    PipelineError,
> {
    if c < mem.len() {
        Ok((c, kind))
    } else {
        Err(PipelineError::ResolutionFailure)
    }
}

/// The cell and kind that a variable names in `mem`, or why it names none.
pub open spec fn resolve(layout: &DataLayout, v: VariableView, mem: Seq<i64>) -> Result<
    (int, FieldKind),
    PipelineError,
> {
    match field_index(layout.fields@, v.name) {
        None => Err(PipelineError::ResolutionFailure),
        Some(i) => {
            let fd = layout.fields@[i];
            match fd.placement {
                Placement::Global => cell_in(mem, fd.offset as int, fd.kind),
                Placement::Object => match v.object {
                    None => Err(PipelineError::ResolutionFailure),
                    Some(slot) => if slot >= layout.object_count {
                        Err(PipelineError::OutOfRange)
                    } else {
                        let start = layout.object_base + slot * layout.object_stride;
                        let active = start + layout.active_offset;
                        let beh = start + layout.behavior_offset;
                        if active >= mem.len() {
                            Err(PipelineError::ResolutionFailure)
                        } else if mem[active] == 0 {
                            Err(PipelineError::InactiveReference)
                        } else {
                            match v.object_behavior {
                                None => cell_in(mem, start + fd.offset, fd.kind),
                                Some(b) => if beh >= mem.len() {
                                    Err(PipelineError::ResolutionFailure)
                                } else if mem[beh] as u64 != b.behavior {
                                    Err(PipelineError::InactiveReference)
                                } else {
                                    cell_in(mem, start + fd.offset, fd.kind)
                                },
                            }
                        }
                    },
                },
                Placement::Surface => match v.surface {
                    None => Err(PipelineError::ResolutionFailure),
                    Some(slot) => if slot >= layout.surface_count {
                        Err(PipelineError::OutOfRange)
                    } else if layout.surface_live_cell >= mem.len() {
                        Err(PipelineError::ResolutionFailure)
                    } else if slot >= mem[layout.surface_live_cell as int] {
                        Err(PipelineError::InactiveReference)
                    } else {
                        cell_in(
                            mem,
                            layout.surface_base + slot * layout.surface_stride + fd.offset,
                            fd.kind,
                        )
                    },
                },
            }
        },
    }
}

/// The cell that a variable names, found from the layout alone, whether or
/// not its object or surface is live; or why it names none.
pub open spec fn locate(layout: &DataLayout, v: VariableView) -> Result<int, PipelineError> {
    match field_index(layout.fields@, v.name) {
        None => Err(PipelineError::ResolutionFailure),
        Some(i) => {
            let fd = layout.fields@[i];
            let c = match fd.placement {
                Placement::Global => Ok(fd.offset as int),
                Placement::Object => match v.object {
                    None => Err(PipelineError::ResolutionFailure),
                    Some(slot) => if slot >= layout.object_count {
                        Err(PipelineError::OutOfRange)
                    } else {
                        Ok(layout.object_base + slot * layout.object_stride + fd.offset)
                    },
                },
                Placement::Surface => match v.surface {
                    None => Err(PipelineError::ResolutionFailure),
                    Some(slot) => if slot >= layout.surface_count {
                        Err(PipelineError::OutOfRange)
                    } else {
                        Ok(layout.surface_base + slot * layout.surface_stride + fd.offset)
                    },
                },
            };
            match c {
                Ok(c) => if c <= usize::MAX {
                    Ok(c)
                } else {
                    Err(PipelineError::ResolutionFailure)
                },
                Err(e) => Err(e),
            }
        },
    }
}

/// Where a variable resolves, it is located at the same cell.
pub proof fn lemma_resolve_locates(layout: &DataLayout, v: VariableView, mem: Seq<i64>)
    requires
        resolve(layout, v, mem) is Ok,
        resolve(layout, v, mem)->Ok_0.0 <= usize::MAX,
    ensures
        locate(layout, v) == Ok::<int, PipelineError>(resolve(layout, v, mem)->Ok_0.0),
{
}

/// Whether `ws` stores to cell `c`.
pub open spec fn writes_cell(ws: Seq<CellWrite>, c: int) -> bool {
    exists|i: int| 0 <= i < ws.len() && (#[trigger] ws[i]).cell == c
}

/// The log after `write` stores `x` to cell `c` on frame `f`: the frame's
/// edit loses its earlier stores to `c` and ends with the new one.
pub open spec fn written_edits(e: EditMap, f: int, c: int, x: i64) -> EditMap {
    e.insert(f, without_cell(edit_or_empty(e, f), c).push(CellWrite { cell: c as usize, value: x }))
}

/// The log after `reset` drops the stores to cell `c` on frame `f`: nothing
/// changes when there are none; a frame's edit that is left empty goes.
pub open spec fn reset_edits(e: EditMap, f: int, c: int) -> EditMap {
    let rest = without_cell(edit_or_empty(e, f), c);
    if !writes_cell(edit_or_empty(e, f), c) {
        e
    } else if rest.len() == 0 {
        e.remove(f)
    } else {
        e.insert(f, rest)
    }
}

/// An integer as a field of `kind` holds it: cut to the field's width, as
/// an unsigned or a two's-complement number.
pub open spec fn stored_int(kind: FieldKind, x: i64) -> i64 {
    match kind {
        FieldKind::Int { bytes, signed } => if bytes == 1 {
            if signed {
                x as i8 as i64
            } else {
                x as u8 as i64
            }
        } else if bytes == 2 {
            if signed {
                x as i16 as i64
            } else {
                x as u16 as i64
            }
        } else if bytes == 4 {
            if signed {
                x as i32 as i64
            } else {
                x as u32 as i64
            }
        } else {
            x
        },
        _ => x,
    }
}

/// The cell contents that writing `v` to a field of `kind` stores, or none
/// when the value's kind does not fit the field.
pub open spec fn encode(kind: FieldKind, v: Value) -> Option<i64> {
    match (kind, v) {
        (FieldKind::Int { .. }, Value::Int(x)) => Some(stored_int(kind, x)),
        (FieldKind::Float, Value::Float(b)) => Some(b as i64),
        (FieldKind::Address, Value::Address(a)) => Some(a.address as i64),
        _ => None,
    }
}

/// The value that a cell of `kind` holds.
pub open spec fn decode(kind: FieldKind, cell: i64) -> Value {
    match kind {
        FieldKind::Int { .. } => Value::Int(cell),
        FieldKind::Float => Value::Float(cell as u64),
        FieldKind::Address => Value::Address(PyAddress { address: cell as u64 }),
    }
}

/// The stores of `ws` without those to cell `c`, in their order.
pub open spec fn without_cell(ws: Seq<CellWrite>, c: int) -> Seq<CellWrite>
    decreases ws.len(),
{
    if ws.len() == 0 {
        ws
    } else {
        let rest = without_cell(ws.drop_last(), c);
        if ws.last().cell == c {
            rest
        } else {
            rest.push(ws.last())
        }
    }
}

/// The edit that `edits` holds at `f`, or no stores.
pub open spec fn edit_or_empty(edits: EditMap, f: int) -> Seq<CellWrite> {
    if edits.contains_key(f) {
        edits[f]
    } else {
        Seq::empty()
    }
}

/// Stores leave the length of a memory block as it was.
pub proof fn lemma_writes_keep_len(m: Seq<i64>, ws: Seq<CellWrite>)
    ensures
        apply_writes(m, ws).len() == m.len(),
    decreases ws.len(),
{
    if ws.len() > 0 {
        lemma_writes_keep_len(m, ws.drop_last());
    }
}

/// The last store to a cell inside the block decides what the cell holds.
pub proof fn lemma_last_write_wins(m: Seq<i64>, ws: Seq<CellWrite>, w: CellWrite)
    requires
        w.cell < m.len(),
    ensures
        apply_writes(m, ws.push(w))[w.cell as int] == w.value,
        apply_writes(m, ws.push(w)).len() == m.len(),
{
    assert(ws.push(w).drop_last() =~= ws);
    lemma_writes_keep_len(m, ws);
    lemma_writes_keep_len(m, ws.push(w));
}

/// Computes `without_cell`.
fn edit_without_cell(ws: Option<&Vec<CellWrite>>, c: usize) -> (r: Vec<CellWrite>)
    ensures
        r@ == without_cell(
            match ws {
                Some(v) => v@,
                None => Seq::empty(),
            },
            c as int,
        ),
{
    let mut out: Vec<CellWrite> = Vec::new();
    match ws {
        None => {},
        Some(v) => {
            let mut i: usize = 0;
            while i < v.len()
                invariant
                    i <= v@.len(),
                    out@ == without_cell(v@.subrange(0, i as int), c as int),
                decreases v@.len() - i,
            {
                assert(v@.subrange(0, i + 1).drop_last() =~= v@.subrange(0, i as int));
                let w = v[i];
                if w.cell != c {
                    out.push(w);
                }
                i = i + 1;
            }
            assert(v@.subrange(0, v@.len() as int) =~= v@);
        },
    }
    out
}

/// Computes `stored_int`.
fn store_int(kind: FieldKind, x: i64) -> (r: i64)
    ensures
        r == stored_int(kind, x),
{
    match kind {
        FieldKind::Int { bytes, signed } => if bytes == 1 {
            if signed {
                x as i8 as i64
            } else {
                x as u8 as i64
            }
        } else if bytes == 2 {
            if signed {
                x as i16 as i64
            } else {
                x as u16 as i64
            }
        } else if bytes == 4 {
            if signed {
                x as i32 as i64
            } else {
                x as u32 as i64
            }
        } else {
            x
        },
        _ => x,
    }
}

/// Computes `encode`.
pub fn encode_value(kind: FieldKind, v: Value) -> (r: Option<i64>)
    ensures
        r == encode(kind, v),
{
    match (kind, v) {
        (FieldKind::Int { .. }, Value::Int(x)) => Some(store_int(kind, x)),
        (FieldKind::Float, Value::Float(b)) => Some(b as i64),
        (FieldKind::Address, Value::Address(a)) => Some(a.address as i64),
        _ => None,
    }
}

/// Computes `decode`.
pub fn decode_value(kind: FieldKind, cell: i64) -> (r: Value)
    ensures
        r == decode(kind, cell),
{
    match kind {
        FieldKind::Int { .. } => Value::Int(cell),
        FieldKind::Float => Value::Float(cell as u64),
        FieldKind::Address => Value::Address(PyAddress { address: cell as u64 }),
    }
}

impl DataLayout {
    /// The position of the first field called `name`, if any.
    pub fn find_field(&self, name: &String) -> (r: Option<usize>)
        ensures
            match r {
                Some(i) => i < self.fields@.len() && field_index(self.fields@, name@) == Some(
                    i as int,
                ),
                None => field_index(self.fields@, name@) is None,
            },
    {
        let mut i: usize = 0;
        while i < self.fields.len()
            invariant
                i <= self.fields@.len(),
                forall|k: int| 0 <= k < i ==> (#[trigger] self.fields@[k]).name@ != name@,
            decreases self.fields@.len() - i,
        {
            if self.fields[i].name == *name {
                proof {
                    let fs = self.fields@;
                    let c = choose|c: int| 0 <= c < fs.len() && (#[trigger] fs[c]).name@ == name@
                        && forall|k: int| 0 <= k < c ==> (#[trigger] fs[k]).name@ != name@;
                    if c < i {
                        assert(fs[c].name@ != name@);
                    }
                    if c > i {
                        assert(fs[i as int].name@ != name@);
                    }
                }
                return Some(i);
            }
            i = i + 1;
        }
        None
    }

    fn cell_in(mem: &Vec<i64>, c: usize, kind: FieldKind) -> (r: Result<(usize, FieldKind), PipelineError>)
        ensures
            match r {
                Ok((rc, rk)) => cell_in(mem@, c as int, kind) == Ok::<(int, FieldKind), PipelineError>((rc as int, rk)),
                Err(e) => cell_in(mem@, c as int, kind) == Err::<(int, FieldKind), PipelineError>(e),
            },
    {
        if c < mem.len() {
            Ok((c, kind))
        } else {
            Err(PipelineError::ResolutionFailure)
        }
    }

    /// Computes `locate`.
    pub fn locate(&self, v: &PyVariable) -> (r: Result<usize, PipelineError>)
        ensures
            match r {
                Ok(c) => locate(self, v@) == Ok::<int, PipelineError>(c as int),
                Err(e) => locate(self, v@) == Err::<int, PipelineError>(e),
            },
    {
        let name = v.name().to_owned();
        let i = match self.find_field(&name) {
            Some(i) => i,
            None => return Err(PipelineError::ResolutionFailure),
        };
        let fd = &self.fields[i];
        let (base, stride, slot) = match fd.placement {
            Placement::Global => return Ok(fd.offset),
            Placement::Object => match v.object() {
                None => return Err(PipelineError::ResolutionFailure),
                Some(slot) => {
                    if slot >= self.object_count {
                        return Err(PipelineError::OutOfRange);
                    }
                    (self.object_base, self.object_stride, slot)
                },
            },
            Placement::Surface => match v.surface() {
                None => return Err(PipelineError::ResolutionFailure),
                Some(slot) => {
                    if slot >= self.surface_count {
                        return Err(PipelineError::OutOfRange);
                    }
                    (self.surface_base, self.surface_stride, slot)
                },
            },
        };
        proof {
            assert(base + slot * stride >= slot * stride) by (nonlinear_arith)
                requires
                    base >= 0,
            ;
        }
        match slot.checked_mul(stride) {
            Some(p) => match base.checked_add(p) {
                Some(start) => match start.checked_add(fd.offset) {
                    Some(c) => Ok(c),
                    None => Err(PipelineError::ResolutionFailure),
                },
                None => Err(PipelineError::ResolutionFailure),
            },
            None => Err(PipelineError::ResolutionFailure),
        }
    }

    /// The cell and kind that `v` names in `mem`, or why it names none.
    pub fn resolve(&self, v: &PyVariable, mem: &Vec<i64>) -> (r: Result<(usize, FieldKind), PipelineError>)
        ensures
            match r {
                Ok((c, k)) => resolve(self, v@, mem@) == Ok::<(int, FieldKind), PipelineError>((c as int, k)),
                Err(e) => resolve(self, v@, mem@) == Err::<(int, FieldKind), PipelineError>(e),
            },
    {
        let mem_len: usize = mem.len();
        assert(mem@.len() == mem_len);
        let name = v.name().to_owned();
        let i = match self.find_field(&name) {
            Some(i) => i,
            None => return Err(PipelineError::ResolutionFailure),
        };
        let fd = &self.fields[i];
        match fd.placement {
            Placement::Global => Self::cell_in(mem, fd.offset, fd.kind),
            Placement::Object => {
                let slot = match v.object() {
                    Some(s) => s,
                    None => return Err(PipelineError::ResolutionFailure),
                };
                if slot >= self.object_count {
                    return Err(PipelineError::OutOfRange);
                }
                let start = match slot.checked_mul(self.object_stride) {
                    Some(p) => match self.object_base.checked_add(p) {
                        Some(s) => s,
                        None => return Err(PipelineError::ResolutionFailure),
                    },
                    None => {
                        proof {
                            assert(self.object_base + slot * self.object_stride
                                >= slot * self.object_stride) by (nonlinear_arith)
                                requires
                                    self.object_base >= 0,
                            ;
                        }
                        return Err(PipelineError::ResolutionFailure);
                    },
                };
                let active = match start.checked_add(self.active_offset) {
                    Some(a) => a,
                    None => return Err(PipelineError::ResolutionFailure),
                };
                if active >= mem.len() {
                    return Err(PipelineError::ResolutionFailure);
                }
                if mem[active] == 0 {
                    return Err(PipelineError::InactiveReference);
                }
                match v.object_behavior() {
                    None => {},
                    Some(b) => {
                        let beh = match start.checked_add(self.behavior_offset) {
                            Some(x) => x,
                            None => return Err(PipelineError::ResolutionFailure),
                        };
                        if beh >= mem.len() {
                            return Err(PipelineError::ResolutionFailure);
                        }
                        if mem[beh] as u64 != b.behavior {
                            return Err(PipelineError::InactiveReference);
                        }
                    },
                }
                match start.checked_add(fd.offset) {
                    Some(c) => Self::cell_in(mem, c, fd.kind),
                    None => Err(PipelineError::ResolutionFailure),
                }
            },
            Placement::Surface => {
                let slot = match v.surface() {
                    Some(s) => s,
                    None => return Err(PipelineError::ResolutionFailure),
                };
                if slot >= self.surface_count {
                    return Err(PipelineError::OutOfRange);
                }
                if self.surface_live_cell >= mem_len {
                    return Err(PipelineError::ResolutionFailure);
                }
                if slot as i128 >= mem[self.surface_live_cell] as i128 {
                    return Err(PipelineError::InactiveReference);
                }
                let start = match slot.checked_mul(self.surface_stride) {
                    Some(p) => match self.surface_base.checked_add(p) {
                        Some(s) => s,
                        None => return Err(PipelineError::ResolutionFailure),
                    },
                    None => {
                        proof {
                            assert(self.surface_base + slot * self.surface_stride
                                >= slot * self.surface_stride) by (nonlinear_arith)
                                requires
                                    self.surface_base >= 0,
                            ;
                        }
                        return Err(PipelineError::ResolutionFailure);
                    },
                };
                match start.checked_add(fd.offset) {
                    Some(c) => Self::cell_in(mem, c, fd.kind),
                    None => Err(PipelineError::ResolutionFailure),
                }
            },
        }
    }
}

// Names and labels below are ASCII: 65 is `A`, 90 is `Z`, 95 is `_` and
// 32 is a space.

/// Whether `s` starts with `p`.
pub open spec fn has_prefix(s: Seq<u8>, p: Seq<u8>) -> bool {
    p.len() <= s.len() && s.subrange(0, p.len() as int) == p
}

/// Whether a constant names an action: it starts with `ACT_` and is not a
/// flag, group or id constant.
pub open spec fn is_action_name(s: Seq<u8>) -> bool {
    &&& has_prefix(s, seq![65u8, 67u8, 84u8, 95u8])
    &&& !has_prefix(s, seq![65u8, 67u8, 84u8, 95u8, 70u8, 76u8, 65u8, 71u8, 95u8])
    &&& !has_prefix(s, seq![65u8, 67u8, 84u8, 95u8, 71u8, 82u8, 79u8, 85u8, 80u8, 95u8])
    &&& !has_prefix(s, seq![65u8, 67u8, 84u8, 95u8, 73u8, 68u8, 95u8])
}

/// A byte of an action's readable name: underscores become spaces and
/// capitals become small letters.
pub open spec fn label_byte(b: u8) -> u8 {
    if b == 95u8 {
        32u8
    } else if 65u8 <= b <= 90u8 {
        (b + 32) as u8
    } else {
        b
    }
}

/// The readable name of an action constant: the name after `ACT_`, with
/// `label_byte` applied to each byte.
pub open spec fn action_label(s: Seq<u8>) -> Seq<u8> {
    s.subrange(4, s.len() as int).map_values(|b: u8| label_byte(b))
}

/// The actions among `cs`, in order: each value (as a `u32`) with its name.
pub open spec fn action_table(cs: Seq<(Vec<u8>, i64)>) -> Seq<(u32, Seq<u8>)>
    decreases cs.len(),
{
    if cs.len() == 0 {
        Seq::empty()
    } else {
        let rest = action_table(cs.drop_last());
        let c = cs.last();
        if is_action_name(c.0@) {
            rest.push((c.1 as u32, action_label(c.0@)))
        } else {
            rest
        }
    }
}

/// Computes `has_prefix`.
fn starts_with(s: &Vec<u8>, p: &Vec<u8>) -> (r: bool)
    ensures
        r == has_prefix(s@, p@),
{
    if p.len() > s.len() {
        return false;
    }
    let mut i: usize = 0;
    while i < p.len()
        invariant
            p@.len() <= s@.len(),
            i <= p@.len(),
            forall|k: int| 0 <= k < i ==> s@[k] == p@[k],
        decreases p@.len() - i,
    {
        if s[i] != p[i] {
            assert(s@.subrange(0, p@.len() as int)[i as int] != p@[i as int]);
            return false;
        }
        i = i + 1;
    }
    assert(s@.subrange(0, p@.len() as int) =~= p@);
    true
}

/// Computes `action_label`.
fn readable_action(s: &Vec<u8>) -> (r: Vec<u8>)
    requires
        s@.len() >= 4,
    ensures
        r@ == action_label(s@),
{
    let mut out: Vec<u8> = Vec::new();
    let mut i: usize = 4;
    while i < s.len()
        invariant
            4 <= i <= s@.len(),
            out@ == s@.subrange(4, i as int).map_values(|b: u8| label_byte(b)),
        decreases s@.len() - i,
    {
        let b = s[i];
        let c = if b == 95u8 {
            32u8
        } else if 65u8 <= b && b <= 90u8 {
            b + 32
        } else {
            b
        };
        out.push(c);
        assert(s@.subrange(4, i + 1).map_values(|b: u8| label_byte(b)) =~= s@.subrange(
            4,
            i as int,
        ).map_values(|b: u8| label_byte(b)).push(label_byte(b)));
        i = i + 1;
    }
    out
}

impl DataLayout {
    /// The action constants with their readable names: for each constant
    /// whose name starts with `ACT_` but not with `ACT_FLAG_`, `ACT_GROUP_`
    /// or `ACT_ID_`, its value as a `u32` and its name after `ACT_` with
    /// underscores as spaces, in small letters.
    pub fn action_names(&self) -> (r: Vec<(u32, Vec<u8>)>)
        ensures
            r@.len() == action_table(self.constants@).len(),
            forall|i: int|
                0 <= i < r@.len() ==> (#[trigger] r@[i]).0 == action_table(self.constants@)[i].0
                    && r@[i].1@ == action_table(self.constants@)[i].1,
    {
        let act: Vec<u8> = vec![65u8, 67u8, 84u8, 95u8];
        let flag: Vec<u8> = vec![65u8, 67u8, 84u8, 95u8, 70u8, 76u8, 65u8, 71u8, 95u8];
        let group: Vec<u8> = vec![65u8, 67u8, 84u8, 95u8, 71u8, 82u8, 79u8, 85u8, 80u8, 95u8];
        let id: Vec<u8> = vec![65u8, 67u8, 84u8, 95u8, 73u8, 68u8, 95u8];
        assert(act@ =~= seq![65u8, 67u8, 84u8, 95u8]);
        assert(flag@ =~= seq![65u8, 67u8, 84u8, 95u8, 70u8, 76u8, 65u8, 71u8, 95u8]);
        assert(group@ =~= seq![65u8, 67u8, 84u8, 95u8, 71u8, 82u8, 79u8, 85u8, 80u8, 95u8]);
        assert(id@ =~= seq![65u8, 67u8, 84u8, 95u8, 73u8, 68u8, 95u8]);
        let mut out: Vec<(u32, Vec<u8>)> = Vec::new();
        let mut i: usize = 0;
        while i < self.constants.len()
            invariant
                i <= self.constants@.len(),
                act@ == seq![65u8, 67u8, 84u8, 95u8],
                flag@ == seq![65u8, 67u8, 84u8, 95u8, 70u8, 76u8, 65u8, 71u8, 95u8],
                group@ == seq![65u8, 67u8, 84u8, 95u8, 71u8, 82u8, 79u8, 85u8, 80u8, 95u8],
                id@ == seq![65u8, 67u8, 84u8, 95u8, 73u8, 68u8, 95u8],
                out@.len() == action_table(self.constants@.subrange(0, i as int)).len(),
                forall|k: int|
                    0 <= k < out@.len() ==> (#[trigger] out@[k]).0 == action_table(
                        self.constants@.subrange(0, i as int),
                    )[k].0 && out@[k].1@ == action_table(self.constants@.subrange(0, i as int))[k].1,
            decreases self.constants@.len() - i,
        {
            let name = &self.constants[i].0;
            let value = self.constants[i].1;
            assert(self.constants@.subrange(0, i + 1).drop_last() =~= self.constants@.subrange(
                0,
                i as int,
            ));
            if starts_with(name, &act) && !starts_with(name, &flag) && !starts_with(name, &group)
                && !starts_with(name, &id) {
                let label = readable_action(name);
                out.push((value as u32, label));
            }
            i = i + 1;
        }
        assert(self.constants@.subrange(0, self.constants@.len() as int) =~= self.constants@);
        out
    }
}

/// The decimal digit `d`.
pub open spec fn digit_char(d: int) -> char {
    if d == 0 {
        '0'
    } else if d == 1 {
        '1'
    } else if d == 2 {
        '2'
    } else if d == 3 {
        '3'
    } else if d == 4 {
        '4'
    } else if d == 5 {
        '5'
    } else if d == 6 {
        '6'
    } else if d == 7 {
        '7'
    } else if d == 8 {
        '8'
    } else {
        '9'
    }
}

/// `n` written in decimal, without leading zeros.
pub open spec fn decimal(n: nat) -> Seq<char>
    decreases n,
{
    if n < 10 {
        seq![digit_char(n as int)]
    } else {
        decimal(n / 10).push(digit_char((n % 10) as int))
    }
}

/// The name of a behavior that no symbol names: `Object[address]`.
pub open spec fn address_label(address: u64) -> Seq<char> {
    seq!['O', 'b', 'j', 'e', 'c', 't', '['] + decimal(address as nat) + seq![']']
}

/// A symbol name without its leading `bhv`, if it has one.
pub open spec fn without_bhv(name: Seq<char>) -> Seq<char> {
    if name.len() >= 3 && name[0] == 'b' && name[1] == 'h' && name[2] == 'v' {
        name.subrange(3, name.len() as int)
    } else {
        name
    }
}

/// The one-character string of digit `d`.
fn digit_str(d: u64) -> (r: &'static str)
    requires
        d < 10,
    ensures
        r@ == seq![digit_char(d as int)],
{
    if d == 0 {
        proof { reveal_strlit("0"); }
        assert("0"@ =~= seq![digit_char(0)]);
        "0"
    } else if d == 1 {
        proof { reveal_strlit("1"); }
        assert("1"@ =~= seq![digit_char(1)]);
        "1"
    } else if d == 2 {
        proof { reveal_strlit("2"); }
        assert("2"@ =~= seq![digit_char(2)]);
        "2"
    } else if d == 3 {
        proof { reveal_strlit("3"); }
        assert("3"@ =~= seq![digit_char(3)]);
        "3"
    } else if d == 4 {
        proof { reveal_strlit("4"); }
        assert("4"@ =~= seq![digit_char(4)]);
        "4"
    } else if d == 5 {
        proof { reveal_strlit("5"); }
        assert("5"@ =~= seq![digit_char(5)]);
        "5"
    } else if d == 6 {
        proof { reveal_strlit("6"); }
        assert("6"@ =~= seq![digit_char(6)]);
        "6"
    } else if d == 7 {
        proof { reveal_strlit("7"); }
        assert("7"@ =~= seq![digit_char(7)]);
        "7"
    } else if d == 8 {
        proof { reveal_strlit("8"); }
        assert("8"@ =~= seq![digit_char(8)]);
        "8"
    } else {
        proof { reveal_strlit("9"); }
        assert("9"@ =~= seq![digit_char(9)]);
        "9"
    }
}

/// Appends `n` in decimal to `s`.
fn push_decimal(s: &mut String, n: u64)
    ensures
        final(s)@ == old(s)@ + decimal(n as nat),
    decreases n,
{
    if n >= 10 {
        push_decimal(s, n / 10);
        s.append(digit_str(n % 10));
        assert(old(s)@ + decimal(n as nat) =~= old(s)@ + decimal((n / 10) as nat) + seq![
            digit_char((n % 10) as int),
        ]);
    } else {
        s.append(digit_str(n));
    }
}

/// Computes `address_label`.
pub fn label_address(address: u64) -> (r: String)
    ensures
        r@ == address_label(address),
{
    let mut s = String::new();
    proof {
        reveal_strlit("Object[");
        reveal_strlit("]");
    }
    s.append("Object[");
    push_decimal(&mut s, address);
    s.append("]");
    assert("Object["@ =~= seq!['O', 'b', 'j', 'e', 'c', 't', '[']);
    assert("]"@ =~= seq![']']);
    assert(s@ =~= address_label(address));
    s
}

/// Computes `without_bhv`.
pub fn strip_bhv(name: &String) -> (r: String)
    ensures
        r@ == without_bhv(name@),
{
    let st = name.as_str();
    let len = st.unicode_len();
    if len >= 3 && st.get_char(0) == 'b' && st.get_char(1) == 'h' && st.get_char(2) == 'v' {
        st.substring_char(3, len).to_owned()
    } else {
        name.clone()
    }
}

/// The position of the first symbol at `address`, if any.
pub open spec fn symbol_index(symbols: Seq<(u64, String)>, address: u64) -> Option<int> {
    if exists|i: int| 0 <= i < symbols.len() && (#[trigger] symbols[i]).0 == address {
        Some(choose|i: int| 0 <= i < symbols.len() && (#[trigger] symbols[i]).0 == address
            && forall|k: int| 0 <= k < i ==> (#[trigger] symbols[k]).0 != address)
    } else {
        None
    }
}

proof fn lemma_symbol_index_first(symbols: Seq<(u64, String)>, address: u64, i: int)
    requires
        0 <= i < symbols.len(),
        symbols[i].0 == address,
        forall|k: int| 0 <= k < i ==> (#[trigger] symbols[k]).0 != address,
    ensures
        symbol_index(symbols, address) == Some(i),
{
    let c = choose|c: int| 0 <= c < symbols.len() && (#[trigger] symbols[c]).0 == address
        && forall|k: int| 0 <= k < c ==> (#[trigger] symbols[k]).0 != address;
    if c < i {
        assert(symbols[c].0 != address);
    }
    if c > i {
        assert(symbols[i].0 != address);
    }
}

/// Reads and writes variables against a timeline, through a data layout.
pub struct PyPipeline<S: StepFunction> {
    timeline: Timeline<S>,
    layout: DataLayout,
    symbols: Vec<(u64, String)>,
    valid: bool,
}

impl<S: StepFunction> PyPipeline<S> {
    pub closed spec fn wf(&self) -> bool {
        self.timeline.wf()
    }

    /// A well-formed pipeline has a well-formed timeline.
    pub proof fn lemma_timeline_wf(&self)
        requires
            self.wf(),
        ensures
            self.timeline().wf(),
    {
    }

    pub closed spec fn is_valid(&self) -> bool {
        self.valid
    }

    pub closed spec fn timeline(&self) -> Timeline<S> {
        self.timeline
    }

    pub closed spec fn layout(&self) -> &DataLayout {
        &self.layout
    }

    pub closed spec fn symbols(&self) -> Seq<(u64, String)> {
        self.symbols@
    }

    /// What `read(v)` returns.
    pub open spec fn read_result(&self, v: VariableView) -> Result<Value, PipelineError> {
        if !self.is_valid() {
            Err(PipelineError::InvalidatedHandle)
        } else {
            match v.frame {
                None => Err(PipelineError::ResolutionFailure),
                Some(f) => {
                    let mem = self.timeline().frame_state(f as nat);
                    match resolve(self.layout(), v, mem) {
                        Ok((c, k)) => Ok(decode(k, mem[c])),
                        Err(e) => Err(e),
                    }
                },
            }
        }
    }

    /// The frame, cell and cell contents that `write(v, value)` stores, or
    /// why it stores nothing.
    pub open spec fn write_target(&self, v: VariableView, value: Value) -> Result<
        (u32, int, i64),
        PipelineError,
    > {
        if !self.is_valid() {
            Err(PipelineError::InvalidatedHandle)
        } else {
            match v.frame {
                None => Err(PipelineError::ResolutionFailure),
                Some(f) => match resolve(self.layout(), v, self.timeline().frame_state(f as nat)) {
                    Err(e) => Err(e),
                    Ok((c, k)) => match encode(k, value) {
                        None => Err(PipelineError::ResolutionFailure),
                        Some(x) => Ok((f, c, x)),
                    },
                },
            }
        }
    }

    /// A pipeline over `timeline`, reading fields through `layout`, with the
    /// program's symbols as (name, address) pairs.
    pub fn new(timeline: Timeline<S>, layout: DataLayout, symbols: Vec<(String, u64)>) -> (r: Self)
        requires
            timeline.wf(),
        ensures
            r.wf(),
            r.is_valid(),
            r.timeline() == timeline,
            r.layout() == layout,
            r.symbols().len() == symbols@.len(),
            forall|i: int|
                0 <= i < symbols@.len() ==> (#[trigger] r.symbols()[i]).0 == symbols@[i].1
                    && r.symbols()[i].1@ == symbols@[i].0@,
    {
        let mut by_address: Vec<(u64, String)> = Vec::new();
        let mut i: usize = 0;
        while i < symbols.len()
            invariant
                i <= symbols@.len(),
                by_address@.len() == i,
                forall|j: int|
                    0 <= j < i ==> (#[trigger] by_address@[j]).0 == symbols@[j].1
                        && by_address@[j].1@ == symbols@[j].0@,
            decreases symbols@.len() - i,
        {
            let name = symbols[i].0.clone();
            by_address.push((symbols[i].1, name));
            i = i + 1;
        }
        PyPipeline { timeline, layout, symbols: by_address, valid: true }
    }

    /// Makes every later call fail with `InvalidatedHandle`.
    pub fn invalidate(&mut self)
        requires
            old(self).wf(),
        ensures
            final(self).wf(),
            !final(self).is_valid(),
            final(self).timeline() == old(self).timeline(),
            final(self).layout() == old(self).layout(),
    {
        self.valid = false;
    }

    pub fn is_live(&self) -> (r: bool)
        ensures
            r == self.is_valid(),
    {
        self.valid
    }

    pub fn data_layout(&self) -> (r: &DataLayout)
        ensures
            r == self.layout(),
    {
        &self.layout
    }

    /// The program's actions by value, with readable names (ASCII bytes).
    pub fn action_names(&self) -> (r: Result<Vec<(u32, Vec<u8>)>, PipelineError>)
        ensures
            !self.is_valid() ==> r == Err::<Vec<(u32, Vec<u8>)>, PipelineError>(
                PipelineError::InvalidatedHandle,
            ),
            self.is_valid() ==> r is Ok && r->Ok_0@.len() == action_table(
                self.layout().constants@,
            ).len() && forall|i: int|
                0 <= i < r->Ok_0@.len() ==> (#[trigger] r->Ok_0@[i]).0 == action_table(
                    self.layout().constants@,
                )[i].0 && r->Ok_0@[i].1@ == action_table(self.layout().constants@)[i].1,
    {
        if !self.valid {
            return Err(PipelineError::InvalidatedHandle);
        }
        Ok(self.layout.action_names())
    }

    pub fn timeline_ref(&self) -> (r: &Timeline<S>)
        ensures
            *r == self.timeline(),
    {
        &self.timeline
    }

    /// Reads `v` on its frame.
    pub fn read(&self, v: &PyVariable) -> (r: Result<Value, PipelineError>)
        requires
            self.wf(),
        ensures
            r == self.read_result(v@),
    {
        if !self.valid {
            return Err(PipelineError::InvalidatedHandle);
        }
        let f = match v.frame() {
            Some(f) => f,
            None => return Err(PipelineError::ResolutionFailure),
        };
        let mem = self.timeline.frame(f);
        match self.layout.resolve(v, &mem) {
            Ok((c, k)) => Ok(decode_value(k, mem[c])),
            Err(e) => Err(e),
        }
    }

    /// Writes `value` to `v` on its frame, as an edit of that frame; an
    /// integer is cut to the field's width. Reading `v` again gives the
    /// stored value, unless the store moved what `v` resolves to.
    pub fn write(&mut self, v: &PyVariable, value: Value) -> (r: Result<(), PipelineError>)
        requires
            old(self).wf(),
        ensures
            final(self).wf(),
            final(self).is_valid() == old(self).is_valid(),
            final(self).layout() == old(self).layout(),
            final(self).symbols() == old(self).symbols(),
            final(self).timeline().step_function() == old(self).timeline().step_function(),
            final(self).timeline().power_on() == old(self).timeline().power_on(),
            final(self).timeline().hotspot_list() == old(self).timeline().hotspot_list(),
            match old(self).write_target(v@, value) {
                Err(e) => r == Err::<(), PipelineError>(e) && final(self).timeline().edits()
                    == old(self).timeline().edits(),
                Ok((f, c, x)) => {
                    &&& r is Ok
                    &&& final(self).timeline().edits() == written_edits(
                        old(self).timeline().edits(),
                        f as int,
                        c,
                        x,
                    )
                    &&& final(self).timeline().frame_state(f as nat)[c] == x
                    &&& resolve(final(self).layout(), v@, final(self).timeline().frame_state(f as nat))
                        == resolve(old(self).layout(), v@, old(self).timeline().frame_state(f as nat))
                        ==> final(self).read_result(v@) == Ok::<Value, PipelineError>(decode(
                        match resolve(old(self).layout(), v@, old(self).timeline().frame_state(f as nat)) {
                            Ok((_, k)) => k,
                            Err(_) => FieldKind::Float,
                        },
                        x,
                    ))
                },
            },
    {
        if !self.valid {
            return Err(PipelineError::InvalidatedHandle);
        }
        let f = match v.frame() {
            Some(f) => f,
            None => return Err(PipelineError::ResolutionFailure),
        };
        let mem = self.timeline.frame(f);
        let (c, k) = match self.layout.resolve(v, &mem) {
            Ok(ck) => ck,
            Err(e) => return Err(e),
        };
        let x = match encode_value(k, value) {
            Some(x) => x,
            None => return Err(PipelineError::ResolutionFailure),
        };
        let mut edit = edit_without_cell(self.timeline.edit(f), c);
        edit.push(CellWrite { cell: c, value: x });
        let ghost before = self.timeline.edits();
        let ghost ws = edit@;
        self.timeline.set_edit(f, edit);
        proof {
            let sim = self.timeline.step_function();
            let base = self.timeline.power_on();
            let after = self.timeline.edits();
            assert(ws.drop_last() =~= without_cell(edit_or_empty(before, f as int), c as int));
            let x_mem = if f == 0 {
                base
            } else {
                sim.next(state_at(&sim, base, before, (f - 1) as nat))
            };
            lemma_writes_keep_len(x_mem, edit_or_empty(before, f as int));
            lemma_last_write_wins(x_mem, ws.drop_last(), CellWrite { cell: c, value: x });
            if f > 0 {
                lemma_state_depends_on_prefix(&sim, base, before, after, (f - 1) as nat);
            }
            assert(ws.drop_last().push(CellWrite { cell: c, value: x }) =~= ws);
        }
        Ok(())
    }
    /// Drops the stores that the edit of `v`'s frame makes to `v`'s cell,
    /// so that the cell holds what the simulation computes. The cell is
    /// found from the layout alone, so an override that made `v`'s object
    /// inactive is dropped too.
    pub fn reset(&mut self, v: &PyVariable) -> (r: Result<(), PipelineError>)
        requires
            old(self).wf(),
        ensures
            final(self).wf(),
            final(self).is_valid() == old(self).is_valid(),
            final(self).layout() == old(self).layout(),
            final(self).symbols() == old(self).symbols(),
            final(self).timeline().step_function() == old(self).timeline().step_function(),
            final(self).timeline().power_on() == old(self).timeline().power_on(),
            final(self).timeline().hotspot_list() == old(self).timeline().hotspot_list(),
            !old(self).is_valid() ==> r == Err::<(), PipelineError>(PipelineError::InvalidatedHandle)
                && final(self).timeline().edits() == old(self).timeline().edits(),
            old(self).is_valid() && v@.frame is None ==> r == Err::<(), PipelineError>(
                PipelineError::ResolutionFailure,
            ) && final(self).timeline().edits() == old(self).timeline().edits(),
            old(self).is_valid() && v@.frame is Some ==> match locate(old(self).layout(), v@) {
                Err(e) => r == Err::<(), PipelineError>(e) && final(self).timeline().edits()
                    == old(self).timeline().edits(),
                Ok(c) => r is Ok && final(self).timeline().edits() == reset_edits(
                    old(self).timeline().edits(),
                    v@.frame->0 as int,
                    c,
                ),
            },
    {
        if !self.valid {
            return Err(PipelineError::InvalidatedHandle);
        }
        let f = match v.frame() {
            Some(f) => f,
            None => return Err(PipelineError::ResolutionFailure),
        };
        let c = match self.layout.locate(v) {
            Ok(c) => c,
            Err(e) => return Err(e),
        };
        let existing = self.timeline.edit(f);
        let n: usize = match existing {
            Some(e) => e.len(),
            None => 0,
        };
        let rest = edit_without_cell(existing, c);
        let ghost ws = edit_or_empty(self.timeline.edits(), f as int);
        proof {
            lemma_without_cell_len(ws, c as int);
        }
        if rest.len() == n {
            return Ok(());
        }
        if rest.len() == 0 {
            self.timeline.remove_edit(f);
        } else {
            self.timeline.set_edit(f, rest);
        }
        Ok(())
    }

    /// Reads the field called `path` on `frame`, with no qualifiers.
    pub fn path_read(&self, frame: u32, path: &str) -> (r: Result<Value, PipelineError>)
        requires
            self.wf(),
        ensures
            r == self.read_result(
                VariableView {
                    name: path@,
                    frame: Some(frame),
                    object: None,
                    object_behavior: None,
                    surface: None,
                },
            ),
    {
        let v = PyVariable::new(path).with_frame(frame);
        self.read(&v)
    }

    /// The address (cell index) of the field called `path` on `frame`.
    pub fn path_address(&self, frame: u32, path: &str) -> (r: Result<PyAddress, PipelineError>)
        requires
            self.wf(),
        ensures
            !self.is_valid() ==> r == Err::<PyAddress, PipelineError>(
                PipelineError::InvalidatedHandle,
            ),
            self.is_valid() ==> match resolve(
                self.layout(),
                VariableView {
                    name: path@,
                    frame: Some(frame),
                    object: None,
                    object_behavior: None,
                    surface: None,
                },
                self.timeline().frame_state(frame as nat),
            ) {
                Ok((c, _)) => r == Ok::<PyAddress, PipelineError>(PyAddress { address: c as u64 }),
                Err(e) => r == Err::<PyAddress, PipelineError>(e),
            },
    {
        if !self.valid {
            return Err(PipelineError::InvalidatedHandle);
        }
        let v = PyVariable::new(path).with_frame(frame);
        let mem = self.timeline.frame(frame);
        match self.layout.resolve(&v, &mem) {
            Ok((c, _)) => Ok(PyAddress { address: c as u64 }),
            Err(e) => Err(e),
        }
    }

    /// Opens an empty frame at `frame`, moving every later edit one frame on.
    pub fn insert_frame(&mut self, frame: u32) -> (r: Result<(), PipelineError>)
        requires
            old(self).wf(),
        ensures
            final(self).wf(),
            final(self).is_valid() == old(self).is_valid(),
            final(self).layout() == old(self).layout(),
            final(self).symbols() == old(self).symbols(),
            final(self).timeline().hotspot_list() == old(self).timeline().hotspot_list(),
            final(self).timeline().slot_count() == old(self).timeline().slot_count(),
            final(self).timeline().step_function() == old(self).timeline().step_function(),
            final(self).timeline().power_on() == old(self).timeline().power_on(),
            r is Ok == old(self).is_valid(),
            r is Err ==> r == Err::<(), PipelineError>(PipelineError::InvalidatedHandle)
                && final(self).timeline().edits() == old(self).timeline().edits(),
            r is Ok ==> final(self).timeline().edits() == shifted_up(
                old(self).timeline().edits(),
                frame as int,
            ),
    {
        if !self.valid {
            return Err(PipelineError::InvalidatedHandle);
        }
        self.timeline.insert_frame(frame);
        Ok(())
    }

    /// Removes frame `frame` and its edit, moving every later edit one frame back.
    pub fn delete_frame(&mut self, frame: u32) -> (r: Result<(), PipelineError>)
        requires
            old(self).wf(),
        ensures
            final(self).wf(),
            final(self).is_valid() == old(self).is_valid(),
            final(self).layout() == old(self).layout(),
            final(self).symbols() == old(self).symbols(),
            final(self).timeline().hotspot_list() == old(self).timeline().hotspot_list(),
            final(self).timeline().slot_count() == old(self).timeline().slot_count(),
            final(self).timeline().step_function() == old(self).timeline().step_function(),
            final(self).timeline().power_on() == old(self).timeline().power_on(),
            r is Ok == old(self).is_valid(),
            r is Err ==> r == Err::<(), PipelineError>(PipelineError::InvalidatedHandle)
                && final(self).timeline().edits() == old(self).timeline().edits(),
            r is Ok ==> final(self).timeline().edits() == shifted_down(
                old(self).timeline().edits(),
                frame as int,
            ),
    {
        if !self.valid {
            return Err(PipelineError::InvalidatedHandle);
        }
        self.timeline.delete_frame(frame);
        Ok(())
    }

    /// Sets the hotspot called `name` to `frame`, replacing its earlier frame.
    pub fn set_hotspot(&mut self, name: &str, frame: u32) -> (r: Result<(), PipelineError>)
        requires
            old(self).wf(),
        ensures
            final(self).wf(),
            final(self).is_valid() == old(self).is_valid(),
            final(self).layout() == old(self).layout(),
            final(self).symbols() == old(self).symbols(),
            final(self).timeline().edits() == old(self).timeline().edits(),
            final(self).timeline().step_function() == old(self).timeline().step_function(),
            final(self).timeline().power_on() == old(self).timeline().power_on(),
            final(self).timeline().slot_count() == old(self).timeline().slot_count(),
            forall|j: int|
                0 <= j < final(self).timeline().slot_count() ==> #[trigger] final(self).timeline().cached_frame(j) == old(self).timeline().cached_frame(j),
            r is Ok == old(self).is_valid(),
            r is Err ==> r == Err::<(), PipelineError>(PipelineError::InvalidatedHandle)
                && final(self).timeline().hotspot_list() == old(self).timeline().hotspot_list(),
            r is Ok ==> match hotspot_index(old(self).timeline().hotspot_list(), name@) {
                Some(i) => final(self).timeline().hotspot_list() == old(self).timeline().hotspot_list().update(
                    i,
                    (old(self).timeline().hotspot_list()[i].0, frame),
                ),
                None => final(self).timeline().hotspot_list().len() == old(self).timeline().hotspot_list().len() + 1 && final(self).timeline().hotspot_list().drop_last() == old(self).timeline().hotspot_list()
                    && final(self).timeline().hotspot_list().last().0@ == name@ && final(self).timeline().hotspot_list().last().1 == frame,
            },
    {
        if !self.valid {
            return Err(PipelineError::InvalidatedHandle);
        }
        self.timeline.set_hotspot(name, frame);
        Ok(())
    }

    /// Moves cached frames towards the hotspots for at most
    /// `max_run_time_nanos` nanoseconds; a zero budget moves none. Each slot
    /// ends where it was or at its wanted frame, and what any frame holds is
    /// the same afterwards.
    pub fn balance_distribution(&mut self, max_run_time_nanos: u128) -> (r: Result<(), PipelineError>)
        requires
            old(self).wf(),
        ensures
            final(self).wf(),
            final(self).is_valid() == old(self).is_valid(),
            final(self).layout() == old(self).layout(),
            final(self).symbols() == old(self).symbols(),
            final(self).timeline().edits() == old(self).timeline().edits(),
            final(self).timeline().step_function() == old(self).timeline().step_function(),
            final(self).timeline().power_on() == old(self).timeline().power_on(),
            final(self).timeline().hotspot_list() == old(self).timeline().hotspot_list(),
            final(self).timeline().slot_count() == old(self).timeline().slot_count(),
            forall|f: nat| #[trigger] final(self).timeline().frame_state(f) == old(self).timeline().frame_state(f),
            forall|j: int|
                0 <= j < old(self).timeline().slot_count() ==> #[trigger] final(self).timeline().cached_frame(j) == old(self).timeline().cached_frame(j) || final(self).timeline().cached_frame(j) == old(self).timeline().wanted_frame(j),
            forall|j: int, k: int|
                0 <= k < j < old(self).timeline().slot_count() && #[trigger] final(self).timeline().cached_frame(j)
                    != old(self).timeline().cached_frame(j) ==> #[trigger] old(self).timeline().wanted_frame(k) is None
                    || final(self).timeline().cached_frame(k) == old(self).timeline().wanted_frame(k),
            (!old(self).is_valid() || max_run_time_nanos == 0) ==> forall|j: int|
                0 <= j < old(self).timeline().slot_count() ==> #[trigger] final(self).timeline().cached_frame(j) == old(self).timeline().cached_frame(j),
            r is Ok == old(self).is_valid(),
            r is Err ==> r == Err::<(), PipelineError>(PipelineError::InvalidatedHandle),
    {
        if !self.valid {
            return Err(PipelineError::InvalidatedHandle);
        }
        self.timeline.balance_distribution(max_run_time_nanos);
        Ok(())
    }

    /// The kind of the field that `v` names, found by name alone.
    fn field_kind(&self, v: &PyVariable) -> (r: Result<FieldKind, PipelineError>)
        ensures
            !self.is_valid() ==> r == Err::<FieldKind, PipelineError>(
                PipelineError::InvalidatedHandle,
            ),
            self.is_valid() ==> match field_index(self.layout().fields@, v@.name) {
                Some(i) => r == Ok::<FieldKind, PipelineError>(self.layout().fields@[i].kind),
                None => r == Err::<FieldKind, PipelineError>(PipelineError::ResolutionFailure),
            },
    {
        if !self.valid {
            return Err(PipelineError::InvalidatedHandle);
        }
        let name = v.name().to_owned();
        match self.layout.find_field(&name) {
            Some(i) => Ok(self.layout.fields[i].kind),
            None => Err(PipelineError::ResolutionFailure),
        }
    }

    /// The label of the field that `v` names, if it has one.
    pub fn label(&self, v: &PyVariable) -> (r: Result<Option<String>, PipelineError>)
        ensures
            !self.is_valid() ==> r == Err::<Option<String>, PipelineError>(
                PipelineError::InvalidatedHandle,
            ),
            self.is_valid() ==> match field_index(self.layout().fields@, v@.name) {
                Some(i) => r is Ok && match self.layout().fields@[i].label {
                    Some(l) => r->Ok_0 is Some && r->Ok_0->0@ == l@,
                    None => r->Ok_0 is None,
                },
                None => r == Err::<Option<String>, PipelineError>(PipelineError::ResolutionFailure),
            },
    {
        if !self.valid {
            return Err(PipelineError::InvalidatedHandle);
        }
        let name = v.name().to_owned();
        match self.layout.find_field(&name) {
            Some(i) => match &self.layout.fields[i].label {
                Some(l) => Ok(Some(l.clone())),
                None => Ok(None),
            },
            None => Err(PipelineError::ResolutionFailure),
        }
    }

    /// Whether `v` names a bit flag.
    pub fn is_bit_flag(&self, v: &PyVariable) -> (r: Result<bool, PipelineError>)
        ensures
            !self.is_valid() ==> r == Err::<bool, PipelineError>(PipelineError::InvalidatedHandle),
            self.is_valid() ==> match field_index(self.layout().fields@, v@.name) {
                Some(i) => r == Ok::<bool, PipelineError>(self.layout().fields@[i].flag is Some),
                None => r == Err::<bool, PipelineError>(PipelineError::ResolutionFailure),
            },
    {
        if !self.valid {
            return Err(PipelineError::InvalidatedHandle);
        }
        let name = v.name().to_owned();
        match self.layout.find_field(&name) {
            Some(i) => Ok(self.layout.fields[i].flag.is_some()),
            None => Err(PipelineError::ResolutionFailure),
        }
    }

    /// Unqualified variables for the fields of group `group`, in layout order.
    pub fn variable_group(&self, group: &str) -> (r: Result<Vec<PyVariable>, PipelineError>)
        ensures
            !self.is_valid() ==> r is Err && r->Err_0 == PipelineError::InvalidatedHandle,
            self.is_valid() ==> r is Ok && r->Ok_0@.len() == group_names(
                self.layout().fields@,
                group@,
            ).len() && forall|i: int|
                0 <= i < r->Ok_0@.len() ==> (#[trigger] r->Ok_0@[i])@ == (VariableView {
                    name: group_names(self.layout().fields@, group@)[i],
                    frame: None,
                    object: None,
                    object_behavior: None,
                    surface: None,
                }),
    {
        if !self.valid {
            return Err(PipelineError::InvalidatedHandle);
        }
        let g = group.to_owned();
        let fields = &self.layout.fields;
        let mut out: Vec<PyVariable> = Vec::new();
        let mut i: usize = 0;
        while i < fields.len()
            invariant
                g@ == group@,
                i <= fields@.len(),
                out@.len() == group_names(fields@.subrange(0, i as int), group@).len(),
                forall|k: int|
                    0 <= k < out@.len() ==> (#[trigger] out@[k])@ == (VariableView {
                        name: group_names(fields@.subrange(0, i as int), group@)[k],
                        frame: None,
                        object: None,
                        object_behavior: None,
                        surface: None,
                    }),
            decreases fields@.len() - i,
        {
            assert(fields@.subrange(0, i + 1).drop_last() =~= fields@.subrange(0, i as int));
            if fields[i].group == g {
                out.push(PyVariable::new(fields[i].name.as_str()));
            }
            i = i + 1;
        }
        assert(fields@.subrange(0, fields@.len() as int) =~= fields@);
        Ok(out)
    }

    /// Whether `v` names an integer field.
    pub fn is_int(&self, v: &PyVariable) -> (r: Result<bool, PipelineError>)
        ensures
            !self.is_valid() ==> r == Err::<bool, PipelineError>(PipelineError::InvalidatedHandle),
            self.is_valid() ==> match field_index(self.layout().fields@, v@.name) {
                Some(i) => r == Ok::<bool, PipelineError>(
                    self.layout().fields@[i].kind is Int,
                ),
                None => r == Err::<bool, PipelineError>(PipelineError::ResolutionFailure),
            },
    {
        match self.field_kind(v) {
            Ok(FieldKind::Int { .. }) => Ok(true),
            Ok(_) => Ok(false),
            Err(e) => Err(e),
        }
    }

    /// Whether `v` names a float field.
    pub fn is_float(&self, v: &PyVariable) -> (r: Result<bool, PipelineError>)
        ensures
            !self.is_valid() ==> r == Err::<bool, PipelineError>(PipelineError::InvalidatedHandle),
            self.is_valid() ==> match field_index(self.layout().fields@, v@.name) {
                Some(i) => r == Ok::<bool, PipelineError>(
                    self.layout().fields@[i].kind is Float,
                ),
                None => r == Err::<bool, PipelineError>(PipelineError::ResolutionFailure),
            },
    {
        match self.field_kind(v) {
            Ok(FieldKind::Float) => Ok(true),
            Ok(_) => Ok(false),
            Err(e) => Err(e),
        }
    }

    /// The offset of the field called `path` within its table.
    pub fn field_offset(&self, path: &str) -> (r: Result<usize, PipelineError>)
        ensures
            !self.is_valid() ==> r == Err::<usize, PipelineError>(PipelineError::InvalidatedHandle),
            self.is_valid() ==> match field_index(self.layout().fields@, path@) {
                Some(i) => r == Ok::<usize, PipelineError>(self.layout().fields@[i].offset),
                None => r == Err::<usize, PipelineError>(PipelineError::ResolutionFailure),
            },
    {
        if !self.valid {
            return Err(PipelineError::InvalidatedHandle);
        }
        let name = path.to_owned();
        match self.layout.find_field(&name) {
            Some(i) => Ok(self.layout.fields[i].offset),
            None => Err(PipelineError::ResolutionFailure),
        }
    }

    /// The behavior of object slot `object` on `frame`, or none when the
    /// object is not active.
    pub fn object_behavior(&self, frame: u32, object: usize) -> (r: Result<
        Option<PyObjectBehavior>,
        PipelineError,
    >)
        requires
            self.wf(),
        ensures
            ({
                let mem = self.timeline().frame_state(frame as nat);
                let l = self.layout();
                let start = l.object_base + object * l.object_stride;
                let active = start + l.active_offset;
                let beh = start + l.behavior_offset;
                r == if !self.is_valid() {
                    Err(PipelineError::InvalidatedHandle)
                } else if object >= l.object_count {
                    Err(PipelineError::OutOfRange)
                } else if active >= mem.len() {
                    Err(PipelineError::ResolutionFailure)
                } else if mem[active] == 0 {
                    Ok(None)
                } else if beh >= mem.len() {
                    Err(PipelineError::ResolutionFailure)
                } else {
                    Ok(Some(PyObjectBehavior { behavior: mem[beh] as u64 }))
                }
            }),
    {
        if !self.valid {
            return Err(PipelineError::InvalidatedHandle);
        }
        if object >= self.layout.object_count {
            return Err(PipelineError::OutOfRange);
        }
        let mem = self.timeline.frame(frame);
        let mem_len: usize = mem.len();
        let start = match object.checked_mul(self.layout.object_stride) {
            Some(p) => match self.layout.object_base.checked_add(p) {
                Some(s) => s,
                None => return Err(PipelineError::ResolutionFailure),
            },
            None => {
                proof {
                    let l = self.layout();
                    assert(l.object_base + object * l.object_stride >= object * l.object_stride)
                        by (nonlinear_arith)
                        requires
                            l.object_base >= 0,
                    ;
                }
                return Err(PipelineError::ResolutionFailure);
            },
        };
        let active = match start.checked_add(self.layout.active_offset) {
            Some(a) => a,
            None => return Err(PipelineError::ResolutionFailure),
        };
        if active >= mem_len {
            return Err(PipelineError::ResolutionFailure);
        }
        if mem[active] == 0 {
            return Ok(None);
        }
        let beh = match start.checked_add(self.layout.behavior_offset) {
            Some(b) => b,
            None => return Err(PipelineError::ResolutionFailure),
        };
        if beh >= mem_len {
            return Err(PipelineError::ResolutionFailure);
        }
        Ok(Some(PyObjectBehavior { behavior: mem[beh] as u64 }))
    }

    /// A readable name for `behavior`: the program symbol at its address
    /// without a leading `bhv`, or `Object[address]` when no symbol is there.
    pub fn object_behavior_name(&self, behavior: &PyObjectBehavior) -> (r: Result<
        String,
        PipelineError,
    >)
        ensures
            !self.is_valid() ==> r is Err && r->Err_0 == PipelineError::InvalidatedHandle,
            self.is_valid() ==> r is Ok && r->Ok_0@ == match symbol_index(
                self.symbols(),
                behavior.behavior,
            ) {
                None => address_label(behavior.behavior),
                Some(i) => without_bhv(self.symbols()[i].1@),
            },
    {
        if !self.valid {
            return Err(PipelineError::InvalidatedHandle);
        }
        let mut i: usize = 0;
        while i < self.symbols.len()
            invariant
                self.valid,
                i <= self.symbols@.len(),
                forall|k: int| 0 <= k < i ==> (#[trigger] self.symbols@[k]).0 != behavior.behavior,
            decreases self.symbols@.len() - i,
        {
            if self.symbols[i].0 == behavior.behavior {
                proof {
                    lemma_symbol_index_first(self.symbols@, behavior.behavior, i as int);
                }
                return Ok(strip_bhv(&self.symbols[i].1));
            }
            i = i + 1;
        }
        Ok(label_address(behavior.behavior))
    }
}

/// `insert_frame(f)` followed by `delete_frame(f)` on a pipeline restores its
/// edit log and every read, when no edit sat at `MAX_FRAME`.
pub proof fn law_pipeline_insert_delete_restores<S: StepFunction>(
    before: &PyPipeline<S>,
    after: &PyPipeline<S>,
    f: u32,
)
    requires
        before.wf(),
        !before.timeline().edits().contains_key(MAX_FRAME as int),
        after.timeline().edits() == shifted_down(
            shifted_up(before.timeline().edits(), f as int),
            f as int,
        ),
        after.timeline().step_function() == before.timeline().step_function(),
        after.timeline().power_on() == before.timeline().power_on(),
        after.layout() == before.layout(),
        after.is_valid() == before.is_valid(),
    ensures
        after.timeline().edits() == before.timeline().edits(),
        forall|v: VariableView| #[trigger] after.read_result(v) == before.read_result(v),
{
    before.lemma_timeline_wf();
    law_insert_delete_restores(&before.timeline(), &after.timeline(), f);
    assert forall|v: VariableView| #[trigger] after.read_result(v) == before.read_result(v) by {
        if v.frame is Some {
            assert(after.timeline().frame_state(v.frame->0 as nat) == before.timeline().frame_state(
                v.frame->0 as nat,
            ));
        }
    }
}

/// Dropping the stores to a cell shortens an edit exactly when it has some,
/// and leaves it as it was when it has none.
pub proof fn lemma_without_cell_len(ws: Seq<CellWrite>, c: int)
    ensures
        without_cell(ws, c).len() <= ws.len(),
        without_cell(ws, c).len() == ws.len() <==> !writes_cell(ws, c),
        !writes_cell(ws, c) ==> without_cell(ws, c) == ws,
    decreases ws.len(),
{
    if ws.len() > 0 {
        let init = ws.drop_last();
        lemma_without_cell_len(init, c);
        assert(init.push(ws.last()) =~= ws);
        if writes_cell(init, c) {
            let i = choose|i: int| 0 <= i < init.len() && (#[trigger] init[i]).cell == c;
            assert(ws[i] == init[i]);
        }
        if !writes_cell(ws, c) {
            assert forall|i: int| 0 <= i < init.len() implies (#[trigger] init[i]).cell != c by {
                assert(ws[i] == init[i]);
            }
            assert(ws[ws.len() - 1].cell != c);
        }
        if ws.last().cell == c {
            assert(ws[ws.len() - 1].cell == c);
        }
    }
}

/// A reset after a write to the same frame and cell gives back the log, when
/// that frame's edit made no store to the cell before the write and the log
/// holds no empty edit.
pub proof fn lemma_reset_undoes_write(e: EditMap, f: int, c: int, x: i64)
    requires
        0 <= c <= usize::MAX,
        forall|k: int| #[trigger] e.contains_key(k) ==> e[k].len() > 0,
        !writes_cell(edit_or_empty(e, f), c),
    ensures
        reset_edits(written_edits(e, f, c, x), f, c) == e,
{
    let ws = edit_or_empty(e, f);
    let w = CellWrite { cell: c as usize, value: x };
    lemma_without_cell_len(ws, c);
    let pushed = ws.push(w);
    let written = written_edits(e, f, c, x);
    assert(edit_or_empty(written, f) == pushed);
    assert(pushed.drop_last() =~= ws);
    assert(without_cell(pushed, c) == ws);
    assert(pushed[pushed.len() - 1].cell == c);
    if ws.len() == 0 {
        assert(!e.contains_key(f));
        assert(reset_edits(written, f, c) =~= e);
    } else {
        assert(e.contains_key(f));
        assert(reset_edits(written, f, c) =~= e);
    }
}

/// A write through `v` followed by a reset of `v` gives back the pipeline's
/// log, when the log had no store to `v`'s cell on its frame; what every
/// frame holds is then as before too. (The cell of a write that returned
/// `Ok` indexes a memory block, so it fits a `usize`.)
pub proof fn law_reset_undoes_write<S: StepFunction>(
    before: &PyPipeline<S>,
    written: &PyPipeline<S>,
    after: &PyPipeline<S>,
    v: VariableView,
    value: Value,
)
    requires
        before.wf(),
        before.write_target(v, value) is Ok,
        before.write_target(v, value)->Ok_0.1 <= usize::MAX,
        !writes_cell(
            edit_or_empty(before.timeline().edits(), before.write_target(v, value)->Ok_0.0 as int),
            before.write_target(v, value)->Ok_0.1,
        ),
        written.layout() == before.layout(),
        written.timeline().edits() == written_edits(
            before.timeline().edits(),
            before.write_target(v, value)->Ok_0.0 as int,
            before.write_target(v, value)->Ok_0.1,
            before.write_target(v, value)->Ok_0.2,
        ),
        after.timeline().edits() == reset_edits(
            written.timeline().edits(),
            v.frame->0 as int,
            locate(written.layout(), v)->Ok_0,
        ),
        after.timeline().step_function() == before.timeline().step_function(),
        after.timeline().power_on() == before.timeline().power_on(),
    ensures
        locate(written.layout(), v) is Ok,
        after.timeline().edits() == before.timeline().edits(),
        forall|g: nat| #[trigger] after.timeline().frame_state(g) == before.timeline().frame_state(g),
{
    let (f, c, x) = before.write_target(v, value)->Ok_0;
    let mem = before.timeline().frame_state(f as nat);
    before.lemma_timeline_wf();
    before.timeline().lemma_edits_nonempty();
    assert(resolve(before.layout(), v, mem) is Ok);
    lemma_resolve_locates(before.layout(), v, mem);
    lemma_reset_undoes_write(before.timeline().edits(), f as int, c, x);
}

} // verus!
