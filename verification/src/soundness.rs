//! Why the passes keep what a program does: the proofs behind the laws on
//! the two rewrites.

use crate::agreement::{agree, lemma_exec_agree, lemma_log_split, same_state};
use crate::ir::Ir;
use crate::machine::{
    done, exec, exec_loop, exec_seq, failed, output, reads, Fault, IoEvent, Machine, Outcome,
};
use crate::optimize::{clears_cell, lemma_zero_looped_block, zero_looped, zero_looped_all};
use vstd::prelude::*;

verus! {

/// True iff the two machines cannot be told apart by what they hold and by
/// what they wrote and read: the same tape and pointer, the same output,
/// the same bytes read.
pub open spec fn alike(a: Machine, b: Machine) -> bool {
    &&& same_state(a, b)
    &&& output(a.log) == output(b.log)
    &&& reads(a.log) == reads(b.log)
}

/// Machines that were alike are alike after two runs that agree.
pub proof fn lemma_alike_after(a0: Machine, a: Outcome, b0: Machine, b: Outcome)
    requires
        alike(a0, b0),
        agree(a0, a, b0, b),
    ensures
        alike(a.machine, b.machine),
{
    lemma_log_split(a0.log, a.machine.log);
    lemma_log_split(b0.log, b.machine.log);
}

/// What a loop that clears its cell does: with the pointer out of range it
/// faults at once; else, unless the fuel runs out, it leaves zero in the
/// cell and changes nothing else but the log, which gains no output and no
/// read.
pub proof fn lemma_clearing_loop(inner: Ir, m: Machine, input: Seq<u8>, fuel: nat)
    requires
        clears_cell(Ir::Loop { inner: Box::new(inner) }),
    ensures
        ({
            let r = exec_loop(inner, m, input, fuel);
            &&& !m.in_range() ==> r == failed(m, Fault::Overflow)
            &&& m.in_range() && r.fault != Some(Fault::Exhausted) ==> {
                &&& r.fault is None
                &&& r.machine.cells == m.stored(m.ptr, 0).cells
                &&& r.machine.ptr == m.ptr
                &&& output(r.machine.log) == output(m.log)
                &&& reads(r.machine.log) == reads(m.log)
            }
        }),
    decreases fuel,
{
    if m.in_range() {
        let looked = m.logged(IoEvent::Probe(m.ptr)).grown(m.ptr);
        assert(looked.log.drop_last() =~= m.log);
        assert(output(looked.log) == output(m.log));
        assert(reads(looked.log) == reads(m.log));
        if looked.cell(m.ptr) == 0 {
            assert(looked.cells =~= m.stored(m.ptr, 0).cells);
        } else if fuel > 0 {
            let body = inner->body;
            assert(body.drop_last() =~= Seq::<Ir>::empty());
            assert(exec_seq(body.drop_last(), looked, input, (fuel - 1) as nat) == done(looked));
            assert(body.last() == Ir::Decrement { num: 1 });
            let round = exec(inner, looked, input, (fuel - 1) as nat);
            assert(round == exec(Ir::Decrement { num: 1 }, looked, input, (fuel - 1) as nat));
            assert(round.fault is None);
            lemma_clearing_loop(inner, round.machine, input, (fuel - 1) as nat);
            let r = exec_loop(inner, m, input, fuel);
            if r.fault != Some(Fault::Exhausted) {
                assert(r.machine.cells =~= m.stored(m.ptr, 0).cells);
            }
        }
    }
}

/// The zero-loop pass keeps what a tree does: unless the fuel runs out on
/// the tree as it was, the rewritten tree ends with the same fault, and
/// leaves machines that were alike alike.
pub proof fn lemma_zero_loop_sound(ir: Ir, m1: Machine, m2: Machine, input: Seq<u8>, fuel: nat)
    requires
        alike(m1, m2),
    ensures
        ({
            let a = exec(ir, m1, input, fuel);
            let b = exec(zero_looped(ir), m2, input, fuel);
            a.fault != Some(Fault::Exhausted) ==> a.fault == b.fault && alike(a.machine, b.machine)
        }),
    decreases ir, 0nat,
{
    match ir {
        Ir::Block { body } => {
            lemma_zero_looped_block(body);
            lemma_zero_loop_sound_all(body, m1, m2, input, fuel);
        },
        _ => {
            if clears_cell(ir) {
                let inner = *ir->inner;
                lemma_clearing_loop(inner, m1, input, fuel);
                let a = exec(ir, m1, input, fuel);
                let b = exec(Ir::AssignCurrent { value: 0 }, m2, input, fuel);
                assert(a == exec_loop(inner, m1, input, fuel));
            } else {
                assert(zero_looped(ir) == ir);
                lemma_exec_agree(ir, m1, m2, input, input, fuel);
                lemma_alike_after(
                    m1,
                    exec(ir, m1, input, fuel),
                    m2,
                    exec(ir, m2, input, fuel),
                );
            }
        },
    }
}

/// The same for a list of trees.
pub proof fn lemma_zero_loop_sound_all(
    body: Seq<Ir>,
    m1: Machine,
    m2: Machine,
    input: Seq<u8>,
    fuel: nat,
)
    requires
        alike(m1, m2),
    ensures
        ({
            let a = exec_seq(body, m1, input, fuel);
            let b = exec_seq(zero_looped_all(body), m2, input, fuel);
            a.fault != Some(Fault::Exhausted) ==> a.fault == b.fault && alike(a.machine, b.machine)
        }),
    decreases body, 1nat,
{
    if body.len() > 0 {
        let front = body.drop_last();
        assert(zero_looped_all(body).drop_last() =~= zero_looped_all(front));
        assert(zero_looped_all(body).last() == zero_looped(body.last()));
        lemma_zero_loop_sound_all(front, m1, m2, input, fuel);
        let a = exec_seq(front, m1, input, fuel);
        let b = exec_seq(zero_looped_all(front), m2, input, fuel);
        if a.fault is None {
            lemma_zero_loop_sound(body.last(), a.machine, b.machine, input, fuel);
        }
    }
}

} // verus!
