//! The abstract machine and the meaning of an instruction tree on it.
//!
//! A [`Machine`] is a tape of bytes, a pointer, and the log of everything that
//! has passed between the machine and its surroundings. [`exec`] says what a
//! tree does to a machine for a given input stream. Evaluation is bounded by
//! `fuel`: a loop entered with fuel `n` runs its body at most `n` times, and
//! the body's `k`-th run has fuel `n - k`. With enough fuel the bound is never
//! met, and every tree gets a result.

use crate::ir::Ir;
use vstd::prelude::*;

verus! {

/// One exchange between the machine and its surroundings.
pub enum IoEvent {
    /// An input byte was asked for, and this byte came.
    Read(u8),
    /// This byte was emitted.
    Write(u8),
    /// Notice was given that the cell at this index is about to be looked at.
    Probe(nat),
}

/// The state of the abstract machine.
pub struct Machine {
    /// The tape, as far as it has been touched.
    pub cells: Seq<u8>,
    /// The data pointer.
    pub ptr: nat,
    /// Every exchange so far, oldest first.
    pub log: Seq<IoEvent>,
}

/// Why an evaluation stopped early.
pub enum Fault {
    /// The pointer was moved below the first cell.
    Underflow,
    /// A cell index left the range that the machine can address.
    Overflow,
    /// A loop wanted another round and had no fuel left.
    Exhausted,
}

/// Where an evaluation ended: the machine as it was left, and the fault that
/// stopped it, if one did.
pub struct Outcome {
    pub machine: Machine,
    pub fault: Option<Fault>,
}

/// The bytes written, in order.
pub open spec fn output(log: Seq<IoEvent>) -> Seq<u8>
    decreases log.len(),
{
    if log.len() == 0 {
        Seq::empty()
    } else {
        match log.last() {
            IoEvent::Write(c) => output(log.drop_last()).push(c),
            _ => output(log.drop_last()),
        }
    }
}

/// The bytes that came in, in order.
pub open spec fn reads(log: Seq<IoEvent>) -> Seq<u8>
    decreases log.len(),
{
    if log.len() == 0 {
        Seq::empty()
    } else {
        match log.last() {
            IoEvent::Read(c) => reads(log.drop_last()).push(c),
            _ => reads(log.drop_last()),
        }
    }
}

/// How many input bytes were taken.
pub open spec fn taken(log: Seq<IoEvent>) -> nat {
    reads(log).len()
}

/// The `k`-th byte of an input stream: zero once the stream has run out.
pub open spec fn next_byte(input: Seq<u8>, k: nat) -> u8 {
    if k < input.len() {
        input[k as int]
    } else {
        0
    }
}

/// True iff the bytes that the log shows as read are the ones that `input`
/// holds at those places.
pub open spec fn feeds(input: Seq<u8>, log: Seq<IoEvent>) -> bool {
    forall|k: int| 0 <= k < reads(log).len() ==> next_byte(input, k as nat) == #[trigger] reads(log)[k]
}

/// True iff the log `after` is the log `before`, gone on.
pub open spec fn extends(before: Seq<IoEvent>, after: Seq<IoEvent>) -> bool {
    before.len() <= after.len() && after.take(before.len() as int) == before
}

/// A fresh machine: an empty tape, the pointer on the first cell, nothing
/// logged.
pub open spec fn fresh() -> Machine {
    Machine { cells: Seq::empty(), ptr: 0, log: Seq::empty() }
}

/// `n` zero bytes.
pub open spec fn zeros(n: nat) -> Seq<u8> {
    Seq::new(n, |i: int| 0u8)
}

impl Machine {
    /// The tape grown, with zeros, until it holds the cell at `index`.
    pub open spec fn grown(self, index: nat) -> Machine {
        if index < self.cells.len() {
            self
        } else {
            Machine { cells: self.cells + zeros((index + 1 - self.cells.len()) as nat), ..self }
        }
    }

    /// The machine after `value` was stored at `index`.
    pub open spec fn stored(self, index: nat, value: u8) -> Machine {
        let g = self.grown(index);
        Machine { cells: g.cells.update(index as int, value), ..g }
    }

    /// What the cell at `index` holds; an untouched cell holds zero.
    pub open spec fn cell(self, index: nat) -> u8 {
        if index < self.cells.len() {
            self.cells[index as int]
        } else {
            0
        }
    }

    /// The machine after one more exchange.
    pub open spec fn logged(self, event: IoEvent) -> Machine {
        Machine { log: self.log.push(event), ..self }
    }

    /// The machine with the pointer at `ptr`.
    pub open spec fn moved(self, ptr: nat) -> Machine {
        Machine { ptr, ..self }
    }

    /// True iff the cell under the pointer can be addressed.
    pub open spec fn in_range(self) -> bool {
        self.ptr < usize::MAX
    }
}

/// An evaluation that ended well in `m`.
pub open spec fn done(m: Machine) -> Outcome {
    Outcome { machine: m, fault: None }
}

/// An evaluation that stopped in `m` with `fault`.
pub open spec fn failed(m: Machine, fault: Fault) -> Outcome {
    Outcome { machine: m, fault: Some(fault) }
}

/// What the tree `ir` does to the machine `m`, on the input stream `input`,
/// within `fuel`.
///
/// An instruction that faults leaves the machine as it found it.
pub open spec fn exec(ir: Ir, m: Machine, input: Seq<u8>, fuel: nat) -> Outcome
    decreases fuel, ir,
{
    match ir {
        Ir::Block { body } => exec_seq(body, m, input, fuel),
        Ir::Loop { inner } => exec_loop(*inner, m, input, fuel),
        Ir::Increment { num } => if !m.in_range() {
            failed(m, Fault::Overflow)
        } else {
            done(m.stored(m.ptr, ((m.cell(m.ptr) + num) % 256) as u8))
        },
        Ir::Decrement { num } => if !m.in_range() {
            failed(m, Fault::Overflow)
        } else {
            done(m.stored(m.ptr, ((m.cell(m.ptr) - num) % 256) as u8))
        },
        Ir::ShiftRight { num } => if m.ptr + num > usize::MAX {
            failed(m, Fault::Overflow)
        } else {
            done(m.moved(m.ptr + num))
        },
        Ir::ShiftLeft { num } => if num > m.ptr {
            failed(m, Fault::Underflow)
        } else {
            done(m.moved((m.ptr - num) as nat))
        },
        Ir::PrintChar => if !m.in_range() {
            failed(m, Fault::Overflow)
        } else {
            done(
                m.logged(IoEvent::Probe(m.ptr)).grown(m.ptr).logged(IoEvent::Write(m.cell(m.ptr))),
            )
        },
        Ir::ReadChar => if !m.in_range() {
            failed(m, Fault::Overflow)
        } else {
            let c = next_byte(input, taken(m.log));
            done(m.logged(IoEvent::Read(c)).stored(m.ptr, c))
        },
        Ir::Assign { index, value } => if index >= usize::MAX {
            failed(m, Fault::Overflow)
        } else {
            done(m.stored(index, value))
        },
        Ir::AssignCurrent { value } => if !m.in_range() {
            failed(m, Fault::Overflow)
        } else {
            done(m.stored(m.ptr, value))
        },
        Ir::PrintString { value } => done(print_all(m, value)),
        Ir::SetCellPointer { value } => done(m.moved(value)),
        Ir::ReadCharForget => done(m.logged(IoEvent::Read(next_byte(input, taken(m.log))))),
    }
}

/// The machine after the bytes of `value` were written in order.
pub open spec fn print_all(m: Machine, value: Seq<u8>) -> Machine
    decreases value.len(),
{
    if value.len() == 0 {
        m
    } else {
        print_all(m, value.drop_last()).logged(IoEvent::Write(value.last()))
    }
}

/// What a list of trees does, one after the other; the first fault ends it.
pub open spec fn exec_seq(body: Seq<Ir>, m: Machine, input: Seq<u8>, fuel: nat) -> Outcome
    decreases fuel, body,
{
    if body.len() == 0 {
        done(m)
    } else {
        let before = exec_seq(body.drop_last(), m, input, fuel);
        if before.fault is Some {
            before
        } else {
            exec(body.last(), before.machine, input, fuel)
        }
    }
}

/// What a loop over `inner` does: while the cell under the pointer is not
/// zero, one more round, each with one unit of fuel less than the one before.
pub open spec fn exec_loop(inner: Ir, m: Machine, input: Seq<u8>, fuel: nat) -> Outcome
    decreases fuel, inner,
{
    if !m.in_range() {
        failed(m, Fault::Overflow)
    } else {
        let looked = m.logged(IoEvent::Probe(m.ptr)).grown(m.ptr);
        if looked.cell(m.ptr) == 0 {
            done(looked)
        } else if fuel == 0 {
            failed(looked, Fault::Exhausted)
        } else {
            let round = exec(inner, looked, input, (fuel - 1) as nat);
            if round.fault is Some {
                round
            } else {
                exec_loop(inner, round.machine, input, (fuel - 1) as nat)
            }
        }
    }
}

/// True iff `after` is what `ir` makes of `before` on every input stream that
/// holds the bytes which `after`'s log shows as read.
pub open spec fn explains(ir: Ir, before: Machine, after: Outcome, fuel: nat) -> bool {
    forall|input: Seq<u8>| #[trigger]
        feeds(input, after.machine.log) ==> exec(ir, before, input, fuel) == after
}

/// The same for a list of trees.
pub open spec fn explains_seq(body: Seq<Ir>, before: Machine, after: Outcome, fuel: nat) -> bool {
    forall|input: Seq<u8>| #[trigger]
        feeds(input, after.machine.log) ==> exec_seq(body, before, input, fuel) == after
}

/// The same for a loop over `inner`.
pub open spec fn explains_loop(inner: Ir, before: Machine, after: Outcome, fuel: nat) -> bool {
    forall|input: Seq<u8>| #[trigger]
        feeds(input, after.machine.log) ==> exec_loop(inner, before, input, fuel) == after
}

/// True iff a loop over `inner` that was entered on `start` with `fuel` has
/// come to `now` with `left`, on every input stream that holds the bytes
/// which `now`'s log shows as read.
pub open spec fn continues(inner: Ir, start: Machine, fuel: nat, now: Machine, left: nat) -> bool {
    forall|input: Seq<u8>| #[trigger]
        feeds(input, now.log) ==> exec_loop(inner, start, input, fuel) == exec_loop(
            inner,
            now,
            input,
            left,
        )
}

/// A log that went on from `before` still feeds on what fed `before`.
pub proof fn lemma_feeds_prefix(input: Seq<u8>, before: Seq<IoEvent>, after: Seq<IoEvent>)
    requires
        extends(before, after),
        feeds(input, after),
    ensures
        feeds(input, before),
        reads(before).len() <= reads(after).len(),
        reads(after).take(reads(before).len() as int) == reads(before),
    decreases after.len() - before.len(),
{
    if before.len() == after.len() {
        assert(after.take(before.len() as int) =~= after);
        assert(reads(after).take(reads(after).len() as int) =~= reads(after));
    } else {
        let shorter = after.drop_last();
        assert(shorter.take(before.len() as int) =~= after.take(before.len() as int));
        assert forall|k: int| 0 <= k < reads(shorter).len() implies next_byte(input, k as nat)
            == #[trigger] reads(shorter)[k] by {
            assert(reads(after)[k] == reads(shorter)[k]);
        }
        lemma_feeds_prefix(input, before, shorter);
        assert(reads(after).take(reads(before).len() as int) =~= reads(shorter).take(
            reads(before).len() as int,
        ));
    }
}


/// The byte that an input stream holds where a read took it.
pub proof fn lemma_read_fed(input: Seq<u8>, log: Seq<IoEvent>, c: u8)
    requires
        feeds(input, log.push(IoEvent::Read(c))),
    ensures
        next_byte(input, taken(log)) == c,
{
    let after = log.push(IoEvent::Read(c));
    assert(after.drop_last() =~= log);
    assert(reads(after)[reads(log).len() as int] == c);
}

/// One more tree at the end of a list that ran well so far.
pub proof fn lemma_seq_step(
    body: Seq<Ir>,
    i: int,
    start: Machine,
    mid: Machine,
    after: Outcome,
    fuel: nat,
)
    requires
        0 <= i < body.len(),
        explains_seq(body.take(i), start, done(mid), fuel),
        explains(body[i], mid, after, fuel),
        extends(mid.log, after.machine.log),
    ensures
        explains_seq(body.take(i + 1), start, after, fuel),
{
    assert forall|input: Seq<u8>| #[trigger] feeds(input, after.machine.log) implies exec_seq(
        body.take(i + 1),
        start,
        input,
        fuel,
    ) == after by {
        lemma_feeds_prefix(input, mid.log, after.machine.log);
        assert(feeds(input, done(mid).machine.log));
        assert(exec_seq(body.take(i), start, input, fuel) == done(mid));
        assert(exec(body[i], mid, input, fuel) == after);
        assert(body.take(i + 1).drop_last() =~= body.take(i));
        assert(body.take(i + 1).last() == body[i]);
    }
}

/// A list that faulted part of the way faults as a whole, in the same way.
pub proof fn lemma_seq_fault(body: Seq<Ir>, k: int, start: Machine, after: Outcome, fuel: nat)
    requires
        0 <= k <= body.len(),
        explains_seq(body.take(k), start, after, fuel),
        after.fault is Some,
    ensures
        explains_seq(body, start, after, fuel),
    decreases body.len() - k,
{
    if k == body.len() {
        assert(body.take(k) =~= body);
    } else {
        assert forall|input: Seq<u8>| #[trigger] feeds(input, after.machine.log) implies exec_seq(
            body.take(k + 1),
            start,
            input,
            fuel,
        ) == after by {
            assert(body.take(k + 1).drop_last() =~= body.take(k));
        }
        lemma_seq_fault(body, k + 1, start, after, fuel);
    }
}

/// How a loop ends at its test.
pub proof fn lemma_loop_end(inner: Ir, start: Machine, fuel: nat, now: Machine, left: nat)
    requires
        continues(inner, start, fuel, now, left),
    ensures
        !now.in_range() ==> explains_loop(inner, start, failed(now, Fault::Overflow), fuel),
        ({
            let looked = now.logged(IoEvent::Probe(now.ptr)).grown(now.ptr);
            &&& now.in_range() && looked.cell(now.ptr) == 0 ==> explains_loop(
                inner,
                start,
                done(looked),
                fuel,
            )
            &&& now.in_range() && looked.cell(now.ptr) != 0 && left == 0 ==> explains_loop(
                inner,
                start,
                failed(looked, Fault::Exhausted),
                fuel,
            )
        }),
{
    let looked = now.logged(IoEvent::Probe(now.ptr)).grown(now.ptr);
    assert(extends(now.log, looked.log)) by {
        assert(looked.log.take(now.log.len() as int) =~= now.log);
    }
    assert forall|input: Seq<u8>| #[trigger] feeds(input, looked.log) implies feeds(
        input,
        now.log,
    ) by {
        lemma_feeds_prefix(input, now.log, looked.log);
    }
}

/// One more round of a loop.
pub proof fn lemma_loop_round(
    inner: Ir,
    start: Machine,
    fuel: nat,
    now: Machine,
    left: nat,
    after: Outcome,
)
    requires
        continues(inner, start, fuel, now, left),
        now.in_range(),
        now.logged(IoEvent::Probe(now.ptr)).grown(now.ptr).cell(now.ptr) != 0,
        left > 0,
        explains(
            inner,
            now.logged(IoEvent::Probe(now.ptr)).grown(now.ptr),
            after,
            (left - 1) as nat,
        ),
        extends(now.logged(IoEvent::Probe(now.ptr)).log, after.machine.log),
    ensures
        after.fault is Some ==> explains_loop(inner, start, after, fuel),
        after.fault is None ==> continues(inner, start, fuel, after.machine, (left - 1) as nat),
{
    let looked = now.logged(IoEvent::Probe(now.ptr)).grown(now.ptr);
    assert(extends(now.log, looked.log)) by {
        assert(looked.log.take(now.log.len() as int) =~= now.log);
    }
    assert forall|input: Seq<u8>| #[trigger] feeds(input, after.machine.log) implies exec_loop(
        inner,
        start,
        input,
        fuel,
    ) == (if after.fault is Some {
        after
    } else {
        exec_loop(inner, after.machine, input, (left - 1) as nat)
    }) by {
        lemma_feeds_prefix(input, looked.log, after.machine.log);
        lemma_feeds_prefix(input, now.log, looked.log);
    }
}

/// A list of trees run one part after the other: the first part's fault
/// ends it, else the second part goes on from where the first ended.
pub proof fn lemma_seq_concat(a: Seq<Ir>, b: Seq<Ir>, m: Machine, input: Seq<u8>, fuel: nat)
    ensures
        exec_seq(a + b, m, input, fuel) == (if exec_seq(a, m, input, fuel).fault is Some {
            exec_seq(a, m, input, fuel)
        } else {
            exec_seq(b, exec_seq(a, m, input, fuel).machine, input, fuel)
        }),
    decreases b.len(),
{
    if b.len() == 0 {
        assert(a + b =~= a);
    } else {
        lemma_seq_concat(a, b.drop_last(), m, input, fuel);
        assert((a + b).drop_last() =~= a + b.drop_last());
        assert((a + b).last() == b.last());
    }
}

/// A list of one tree runs as the tree.
pub proof fn lemma_seq_one(ir: Ir, m: Machine, input: Seq<u8>, fuel: nat)
    ensures
        exec_seq(seq![ir], m, input, fuel) == exec(ir, m, input, fuel),
{
    let one = seq![ir];
    assert(one.drop_last() =~= Seq::<Ir>::empty());
    assert(exec_seq(one.drop_last(), m, input, fuel) == done(m));
    assert(one.last() == ir);
}

} // verus!
