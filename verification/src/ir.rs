//! The intermediate representation: a tree of tape-machine instructions.
//!
//! [`Expr`] is the executable tree that the parser builds and the passes
//! rewrite. [`Ir`] is its mathematical model: the same tree over sequences and
//! natural numbers. Every contract in this crate speaks of an `Expr` through
//! its view, an `Ir`.

use vstd::prelude::*;

verus! {

/// The mathematical model of an instruction tree.
#[allow(inconsistent_fields)]
pub enum Ir {
    /// Runs the children in order.
    Block { body: Seq<Ir> },
    /// Adds `num` to the current cell, modulo 256.
    Increment { num: nat },
    /// Subtracts `num` from the current cell, modulo 256.
    Decrement { num: nat },
    /// Emits the current cell.
    PrintChar,
    /// Stores the next input byte in the current cell.
    ReadChar,
    /// Moves the pointer `num` cells to the left.
    ShiftLeft { num: nat },
    /// Moves the pointer `num` cells to the right.
    ShiftRight { num: nat },
    /// Repeats `inner` while the current cell is not zero.
    Loop { inner: Box<Ir> },
    /// Stores `value` in the cell at `index`, wherever the pointer is.
    Assign { index: nat, value: u8 },
    /// Stores `value` in the current cell.
    AssignCurrent { value: u8 },
    /// Emits the bytes of `value` in order.
    PrintString { value: Seq<u8> },
    /// Moves the pointer to the cell at `value`.
    SetCellPointer { value: nat },
    /// Takes one input byte and drops it.
    ReadCharForget,
}

/// An instruction tree.
///
/// The parser builds the first eight variants. The last five are written by
/// the optimization passes only.
#[derive(Debug)]
#[allow(inconsistent_fields)]
pub enum Expr {
    Block { exprs: Vec<Expr> },
    Increment { num: usize },
    Decrement { num: usize },
    PrintChar,
    ReadChar,
    ShiftLeft { num: usize },
    ShiftRight { num: usize },
    Loop { expr: Box<Expr> },
    Assign { index: usize, value: u8 },
    AssignCurrent { value: u8 },
    PrintString { value: Vec<u8> },
    SetCellPointer { value: usize },
    ReadCharForget,
}

/// The model of one tree.
pub open spec fn ir_of(e: Expr) -> Ir
    decreases e,
{
    match e {
        Expr::Block { exprs } => Ir::Block {
            body: Seq::new(
                exprs@.len(),
                |i: int|
                    if 0 <= i < exprs@.len() {
                        ir_of(exprs@[i])
                    } else {
                        Ir::PrintChar
                    },
            ),
        },
        Expr::Increment { num } => Ir::Increment { num: num as nat },
        Expr::Decrement { num } => Ir::Decrement { num: num as nat },
        Expr::PrintChar => Ir::PrintChar,
        Expr::ReadChar => Ir::ReadChar,
        Expr::ShiftLeft { num } => Ir::ShiftLeft { num: num as nat },
        Expr::ShiftRight { num } => Ir::ShiftRight { num: num as nat },
        Expr::Loop { expr } => Ir::Loop { inner: Box::new(ir_of(*expr)) },
        Expr::Assign { index, value } => Ir::Assign { index: index as nat, value },
        Expr::AssignCurrent { value } => Ir::AssignCurrent { value },
        Expr::PrintString { value } => Ir::PrintString { value: value@ },
        Expr::SetCellPointer { value } => Ir::SetCellPointer { value: value as nat },
        Expr::ReadCharForget => Ir::ReadCharForget,
    }
}

/// The models of a list of trees, in order.
pub open spec fn irs_of(es: Seq<Expr>) -> Seq<Ir> {
    Seq::new(es.len(), |i: int| ir_of(es[i]))
}

impl View for Expr {
    type V = Ir;

    open spec fn view(&self) -> Ir {
        ir_of(*self)
    }
}

/// The view of a block is the list of its children's views.
pub proof fn lemma_block_view(exprs: Vec<Expr>)
    ensures
        (Expr::Block { exprs })@ == (Ir::Block { body: irs_of(exprs@) }),
{
    assert((Expr::Block { exprs })@->body =~= irs_of(exprs@));
}

/// True iff the tree holds a `ReadChar` or a `ReadCharForget` anywhere.
pub open spec fn reads_input(ir: Ir) -> bool
    decreases ir,
{
    match ir {
        Ir::Block { body } => exists|i: int| 0 <= i < body.len() && reads_input(#[trigger] body[i]),
        Ir::Loop { inner } => reads_input(*inner),
        Ir::ReadChar => true,
        Ir::ReadCharForget => true,
        _ => false,
    }
}

/// True iff the tree can read or write the tape or move the pointer: false
/// for `PrintString` and `ReadCharForget`, true for every other instruction,
/// and for a block or a loop true iff it holds for something inside.
pub open spec fn touches_memory(ir: Ir) -> bool
    decreases ir,
{
    match ir {
        Ir::Block { body } => exists|i: int|
            0 <= i < body.len() && touches_memory(#[trigger] body[i]),
        Ir::Loop { inner } => touches_memory(*inner),
        Ir::PrintString { .. } => false,
        Ir::ReadCharForget => false,
        _ => true,
    }
}

/// What `reads_input` says of a block, stated over the list of its children.
pub proof fn lemma_reads_input_block(body: Seq<Ir>)
    ensures
        reads_input(Ir::Block { body }) == (exists|i: int|
            0 <= i < body.len() && reads_input(#[trigger] body[i])),
{
    let b = Ir::Block { body };
    assert(b->body == body);
    assert(reads_input(b) == (exists|i: int|
        0 <= i < b->body.len() && reads_input(#[trigger] b->body[i])));
}

/// What `touches_memory` says of a block, stated over the list of its children.
pub proof fn lemma_touches_memory_block(body: Seq<Ir>)
    ensures
        touches_memory(Ir::Block { body }) == (exists|i: int|
            0 <= i < body.len() && touches_memory(#[trigger] body[i])),
{
    let b = Ir::Block { body };
    assert(b->body == body);
    assert(touches_memory(b) == (exists|i: int|
        0 <= i < b->body.len() && touches_memory(#[trigger] b->body[i])));
}

/// True iff the two byte strings hold the same bytes.
fn same_bytes(a: &Vec<u8>, b: &Vec<u8>) -> (r: bool)
    ensures
        r == (a@ == b@),
{
    if a.len() != b.len() {
        return false;
    }
    let mut i: usize = 0;
    while i < a.len()
        invariant
            i <= a.len(),
            a.len() == b.len(),
            forall|k: int| 0 <= k < i ==> a@[k] == b@[k],
        decreases a.len() - i,
    {
        if a[i] != b[i] {
            return false;
        }
        i += 1;
    }
    assert(a@ =~= b@);
    true
}

/// A copy of a byte string.
pub(crate) fn copy_bytes(a: &Vec<u8>) -> (r: Vec<u8>)
    ensures
        r@ == a@,
{
    let mut out: Vec<u8> = Vec::new();
    let mut i: usize = 0;
    while i < a.len()
        invariant
            i <= a.len(),
            out@ == a@.take(i as int),
        decreases a.len() - i,
    {
        out.push(a[i]);
        assert(a@.take(i + 1) =~= a@.take(i as int).push(a@[i as int]));
        i += 1;
    }
    assert(a@.take(a@.len() as int) =~= a@);
    out
}

impl Expr {
    /// True iff this is a `ReadChar`.
    pub fn is_read(&self) -> (r: bool)
        ensures
            r == (self@ is ReadChar),
    {
        match self {
            Expr::ReadChar => true,
            _ => false,
        }
    }

    /// True iff the tree holds a `ReadChar` or a `ReadCharForget` anywhere.
    #[verifier::loop_isolation(false)]
    pub fn contains_read(&self) -> (r: bool)
        ensures
            r == reads_input(self@),
        decreases self,
    {
        match self {
            Expr::ReadChar => true,
            Expr::ReadCharForget => true,
            Expr::Block { exprs } => {
                proof {
                    lemma_block_view(*exprs);
                    lemma_reads_input_block(irs_of(exprs@));
                }
                let mut i: usize = 0;
                while i < exprs.len()
                    invariant
                        i <= exprs.len(),
                        forall|k: int| 0 <= k < i ==> !reads_input(#[trigger] irs_of(exprs@)[k]),
                    decreases exprs.len() - i,
                {
                    if exprs[i].contains_read() {
                        assert(irs_of(exprs@)[i as int] == exprs@[i as int]@);
                        assert(reads_input(irs_of(exprs@)[i as int]));
                        return true;
                    }
                    i += 1;
                }
                false
            },
            Expr::Loop { expr } => expr.contains_read(),
            _ => false,
        }
    }

    /// True iff this is a `Block`.
    pub fn is_block(&self) -> (r: bool)
        ensures
            r == (self@ is Block),
    {
        match self {
            Expr::Block { .. } => true,
            _ => false,
        }
    }

    /// True iff this is a `Loop`.
    pub fn is_loop(&self) -> (r: bool)
        ensures
            r == (self@ is Loop),
    {
        match self {
            Expr::Loop { .. } => true,
            _ => false,
        }
    }

    /// True iff the tree can read or write the tape or move the pointer.
    #[verifier::loop_isolation(false)]
    pub fn uses_memory(&self) -> (r: bool)
        ensures
            r == touches_memory(self@),
        decreases self,
    {
        match self {
            Expr::Block { exprs } => {
                proof {
                    lemma_block_view(*exprs);
                    lemma_touches_memory_block(irs_of(exprs@));
                }
                let mut i: usize = 0;
                while i < exprs.len()
                    invariant
                        i <= exprs.len(),
                        forall|k: int|
                            0 <= k < i ==> !touches_memory(#[trigger] irs_of(exprs@)[k]),
                    decreases exprs.len() - i,
                {
                    if exprs[i].uses_memory() {
                        assert(irs_of(exprs@)[i as int] == exprs@[i as int]@);
                        assert(touches_memory(irs_of(exprs@)[i as int]));
                        return true;
                    }
                    i += 1;
                }
                false
            },
            Expr::Loop { expr } => expr.uses_memory(),
            Expr::PrintString { .. } => false,
            Expr::ReadCharForget => false,
            _ => true,
        }
    }

    /// Structural comparison: true iff the two trees have the same model.
    #[verifier::loop_isolation(false)]
    fn same_tree(&self, other: &Expr) -> (r: bool)
        ensures
            r == (self@ == other@),
        decreases self,
    {
        match (self, other) {
            (Expr::Block { exprs: a }, Expr::Block { exprs: b }) => {
                proof {
                    lemma_block_view(*a);
                    lemma_block_view(*b);
                }
                if a.len() != b.len() {
                    assert(irs_of(a@).len() != irs_of(b@).len());
                    return false;
                }
                let mut i: usize = 0;
                while i < a.len()
                    invariant
                        i <= a.len(),
                        a.len() == b.len(),
                        forall|k: int| 0 <= k < i ==> irs_of(a@)[k] == irs_of(b@)[k],
                    decreases a.len() - i,
                {
                    if !a[i].same_tree(&b[i]) {
                        assert(irs_of(a@)[i as int] != irs_of(b@)[i as int]);
                        return false;
                    }
                    i += 1;
                }
                assert(irs_of(a@) =~= irs_of(b@));
                true
            },
            (Expr::Increment { num: a }, Expr::Increment { num: b }) => *a == *b,
            (Expr::Decrement { num: a }, Expr::Decrement { num: b }) => *a == *b,
            (Expr::PrintChar, Expr::PrintChar) => true,
            (Expr::ReadChar, Expr::ReadChar) => true,
            (Expr::ShiftLeft { num: a }, Expr::ShiftLeft { num: b }) => *a == *b,
            (Expr::ShiftRight { num: a }, Expr::ShiftRight { num: b }) => *a == *b,
            (Expr::Loop { expr: a }, Expr::Loop { expr: b }) => a.same_tree(b),
            (
                Expr::Assign { index: ia, value: va },
                Expr::Assign { index: ib, value: vb },
            ) => *ia == *ib && *va == *vb,
            (Expr::AssignCurrent { value: a }, Expr::AssignCurrent { value: b }) => *a == *b,
            (Expr::PrintString { value: a }, Expr::PrintString { value: b }) => same_bytes(a, b),
            (Expr::SetCellPointer { value: a }, Expr::SetCellPointer { value: b }) => *a == *b,
            (Expr::ReadCharForget, Expr::ReadCharForget) => true,
            _ => false,
        }
    }
}

impl Clone for Expr {
    /// A copy with the same model.
    #[verifier::loop_isolation(false)]
    fn clone(&self) -> (r: Self)
        ensures
            r@ == self@,
        decreases self,
    {
        match self {
            Expr::Block { exprs } => {
                let mut out: Vec<Expr> = Vec::new();
                let mut i: usize = 0;
                while i < exprs.len()
                    invariant
                        i <= exprs.len(),
                        out@.len() == i,
                        forall|k: int| 0 <= k < i ==> out@[k]@ == exprs@[k]@,
                    decreases exprs.len() - i,
                {
                    out.push(exprs[i].clone());
                    i += 1;
                }
                proof {
                    lemma_block_view(*exprs);
                    lemma_block_view(out);
                    assert(irs_of(out@) =~= irs_of(exprs@));
                }
                Expr::Block { exprs: out }
            },
            Expr::Increment { num } => Expr::Increment { num: *num },
            Expr::Decrement { num } => Expr::Decrement { num: *num },
            Expr::PrintChar => Expr::PrintChar,
            Expr::ReadChar => Expr::ReadChar,
            Expr::ShiftLeft { num } => Expr::ShiftLeft { num: *num },
            Expr::ShiftRight { num } => Expr::ShiftRight { num: *num },
            Expr::Loop { expr } => Expr::Loop { expr: Box::new((**expr).clone()) },
            Expr::Assign { index, value } => Expr::Assign { index: *index, value: *value },
            Expr::AssignCurrent { value } => Expr::AssignCurrent { value: *value },
            Expr::PrintString { value } => Expr::PrintString { value: copy_bytes(value) },
            Expr::SetCellPointer { value } => Expr::SetCellPointer { value: *value },
            Expr::ReadCharForget => Expr::ReadCharForget,
        }
    }
}

impl PartialEq for Expr {
    fn eq(&self, other: &Self) -> (r: bool) {
        self.same_tree(other)
    }
}

impl vstd::std_specs::cmp::PartialEqSpecImpl for Expr {
    open spec fn obeys_eq_spec() -> bool {
        true
    }

    open spec fn eq_spec(&self, other: &Self) -> bool {
        self@ == other@
    }
}

} // verus!
