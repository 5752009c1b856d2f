//! Two runs of one tree agree where they start on the same tape and
//! pointer and meet the same input: they end with the same fault, tape and
//! pointer, after the same exchanges. What the logs held before does not
//! matter.

use crate::ir::{lemma_reads_input_block, reads_input, Ir};
use crate::machine::{
    exec, exec_loop, exec_seq, extends, next_byte, output, print_all, reads, taken, IoEvent,
    Machine, Outcome,
};
use vstd::prelude::*;

verus! {

/// True iff the two machines have the same tape and the same pointer.
pub open spec fn same_state(a: Machine, b: Machine) -> bool {
    a.cells == b.cells && a.ptr == b.ptr
}

/// True iff the stream `i1` from its `k1`-th byte on is the stream `i2` from
/// its `k2`-th byte on.
pub open spec fn same_rest(i1: Seq<u8>, k1: nat, i2: Seq<u8>, k2: nat) -> bool {
    forall|k: nat| k >= k1 ==> #[trigger] next_byte(i1, k) == next_byte(i2, (k - k1 + k2) as nat)
}

/// The exchanges that `after` logged since `before`.
pub open spec fn delta(before: Machine, after: Machine) -> Seq<IoEvent> {
    after.log.skip(before.log.len() as int)
}

/// True iff the run from `a0` to `a` and the run from `b0` to `b` agree: the
/// same fault, the same tape and pointer at the end, and the same exchanges
/// on the way.
pub open spec fn agree(a0: Machine, a: Outcome, b0: Machine, b: Outcome) -> bool {
    &&& a.fault == b.fault
    &&& same_state(a.machine, b.machine)
    &&& extends(a0.log, a.machine.log)
    &&& extends(b0.log, b.machine.log)
    &&& delta(a0, a.machine) == delta(b0, b.machine)
}

/// What one more exchange adds to the output and to the bytes read.
pub proof fn lemma_log_push(log: Seq<IoEvent>, event: IoEvent)
    ensures
        output(log.push(event)) == (match event {
            IoEvent::Write(c) => output(log).push(c),
            _ => output(log),
        }),
        reads(log.push(event)) == (match event {
            IoEvent::Read(c) => reads(log).push(c),
            _ => reads(log),
        }),
        output(Seq::<IoEvent>::empty()) == Seq::<u8>::empty(),
        reads(Seq::<IoEvent>::empty()) == Seq::<u8>::empty(),
{
    assert(log.push(event).drop_last() =~= log);
    assert(log.push(event).last() == event);
}

/// The output of two logs, one after the other.
pub proof fn lemma_output_add(a: Seq<IoEvent>, b: Seq<IoEvent>)
    ensures
        output(a + b) == output(a) + output(b),
    decreases b.len(),
{
    if b.len() == 0 {
        assert(a + b =~= a);
        assert(output(a) + output(b) =~= output(a));
    } else {
        lemma_output_add(a, b.drop_last());
        assert((a + b).drop_last() =~= a + b.drop_last());
        assert((a + b).last() == b.last());
        assert(output(a + b) =~= output(a) + output(b));
    }
}

/// The bytes read in two logs, one after the other.
pub proof fn lemma_reads_add(a: Seq<IoEvent>, b: Seq<IoEvent>)
    ensures
        reads(a + b) == reads(a) + reads(b),
    decreases b.len(),
{
    if b.len() == 0 {
        assert(a + b =~= a);
        assert(reads(a) + reads(b) =~= reads(a));
    } else {
        lemma_reads_add(a, b.drop_last());
        assert((a + b).drop_last() =~= a + b.drop_last());
        assert((a + b).last() == b.last());
        assert(reads(a + b) =~= reads(a) + reads(b));
    }
}

/// A log that went on is the log before with what came since.
pub proof fn lemma_log_split(before: Seq<IoEvent>, after: Seq<IoEvent>)
    requires
        extends(before, after),
    ensures
        after == before + after.skip(before.len() as int),
        output(after) == output(before) + output(after.skip(before.len() as int)),
        reads(after) == reads(before) + reads(after.skip(before.len() as int)),
{
    assert(after =~= before + after.skip(before.len() as int));
    lemma_output_add(before, after.skip(before.len() as int));
    lemma_reads_add(before, after.skip(before.len() as int));
}

/// Two runs that logged the same exchanges agree, where they end in the
/// same fault, tape and pointer.
pub proof fn lemma_agree_by(a0: Machine, a: Outcome, b0: Machine, b: Outcome, d: Seq<IoEvent>)
    requires
        a.fault == b.fault,
        same_state(a.machine, b.machine),
        a.machine.log == a0.log + d,
        b.machine.log == b0.log + d,
    ensures
        agree(a0, a, b0, b),
        delta(a0, a.machine) == d,
{
    assert(a.machine.log.take(a0.log.len() as int) =~= a0.log);
    assert(b.machine.log.take(b0.log.len() as int) =~= b0.log);
    assert(delta(a0, a.machine) =~= d);
    assert(delta(b0, b.machine) =~= d);
}

/// Two runs that agree, each gone on by one of two runs that agree, agree.
pub proof fn lemma_agree_on(
    a0: Machine,
    a1: Outcome,
    a2: Outcome,
    b0: Machine,
    b1: Outcome,
    b2: Outcome,
)
    requires
        agree(a0, a1, b0, b1),
        agree(a1.machine, a2, b1.machine, b2),
    ensures
        agree(a0, a2, b0, b2),
        delta(a0, a2.machine) == delta(a0, a1.machine) + delta(a1.machine, a2.machine),
{
    lemma_log_split(a0.log, a1.machine.log);
    lemma_log_split(b0.log, b1.machine.log);
    lemma_log_split(a1.machine.log, a2.machine.log);
    lemma_log_split(b1.machine.log, b2.machine.log);
    let d = delta(a0, a1.machine) + delta(a1.machine, a2.machine);
    assert(a2.machine.log =~= a0.log + d);
    assert(b2.machine.log =~= b0.log + d);
    lemma_agree_by(a0, a2, b0, b2, d);
    assert(delta(a0, a2.machine) =~= d);
}

/// After two runs that agree, what is left of the input is the same again.
pub proof fn lemma_rest_after(
    a0: Machine,
    a: Outcome,
    b0: Machine,
    b: Outcome,
    i1: Seq<u8>,
    i2: Seq<u8>,
)
    requires
        agree(a0, a, b0, b),
        same_rest(i1, taken(a0.log), i2, taken(b0.log)),
    ensures
        same_rest(i1, taken(a.machine.log), i2, taken(b.machine.log)),
        taken(a.machine.log) - taken(a0.log) == taken(b.machine.log) - taken(b0.log),
{
    lemma_log_split(a0.log, a.machine.log);
    lemma_log_split(b0.log, b.machine.log);
}

/// The writes of a byte string, as exchanges.
pub open spec fn writes(value: Seq<u8>) -> Seq<IoEvent> {
    Seq::new(value.len(), |i: int| IoEvent::Write(value[i]))
}

/// Printing a byte string changes only the log, by its writes.
pub proof fn lemma_print_all(m: Machine, value: Seq<u8>)
    ensures
        print_all(m, value).cells == m.cells,
        print_all(m, value).ptr == m.ptr,
        print_all(m, value).log == m.log + writes(value),
        output(writes(value)) == value,
        reads(writes(value)) == Seq::<u8>::empty(),
    decreases value.len(),
{
    if value.len() == 0 {
        assert(m.log + writes(value) =~= m.log);
        assert(output(writes(value)) =~= value);
    } else {
        lemma_print_all(m, value.drop_last());
        assert(writes(value).drop_last() =~= writes(value.drop_last()));
        assert(writes(value).last() == IoEvent::Write(value.last()));
        assert(print_all(m, value).log =~= m.log + writes(value));
        assert(output(writes(value)) =~= value);
    }
}

/// True iff some tree of the list reads input.
pub open spec fn any_reads(body: Seq<Ir>) -> bool {
    exists|i: int| 0 <= i < body.len() && reads_input(#[trigger] body[i])
}

/// Two runs of one tree agree, where they start on the same tape and
/// pointer and, if the tree reads at all, meet the same input.
pub proof fn lemma_exec_agree(
    ir: Ir,
    m1: Machine,
    m2: Machine,
    i1: Seq<u8>,
    i2: Seq<u8>,
    fuel: nat,
)
    requires
        same_state(m1, m2),
        reads_input(ir) ==> same_rest(i1, taken(m1.log), i2, taken(m2.log)),
    ensures
        agree(m1, exec(ir, m1, i1, fuel), m2, exec(ir, m2, i2, fuel)),
        !reads_input(ir) ==> reads(delta(m1, exec(ir, m1, i1, fuel).machine)).len() == 0,
        m1.cells.len() <= usize::MAX ==> exec(ir, m1, i1, fuel).machine.cells.len() <= usize::MAX,
    decreases fuel, ir, 0nat,
{
    let r1 = exec(ir, m1, i1, fuel);
    let r2 = exec(ir, m2, i2, fuel);
    match ir {
        Ir::Block { body } => {
            lemma_reads_input_block(body);
            lemma_seq_agree(body, m1, m2, i1, i2, fuel);
        },
        Ir::Loop { inner } => {
            lemma_loop_agree(*inner, m1, m2, i1, i2, fuel);
        },
        Ir::PrintChar => {
            if m1.in_range() {
                let d = seq![IoEvent::Probe(m1.ptr), IoEvent::Write(m1.cell(m1.ptr))];
                assert(r1.machine.log =~= m1.log + d);
                assert(r2.machine.log =~= m2.log + d);
                lemma_agree_by(m1, r1, m2, r2, d);
                let none = Seq::<IoEvent>::empty();
                lemma_log_push(none, IoEvent::Probe(m1.ptr));
                lemma_log_push(none.push(IoEvent::Probe(m1.ptr)), IoEvent::Write(m1.cell(m1.ptr)));
                assert(d =~= none.push(IoEvent::Probe(m1.ptr)).push(
                    IoEvent::Write(m1.cell(m1.ptr)),
                ));
            } else {
                lemma_agree_by(m1, r1, m2, r2, Seq::empty());
            }
        },
        Ir::ReadChar => {
            if m1.in_range() {
                let c = next_byte(i1, taken(m1.log));
                assert(c == next_byte(i2, taken(m2.log)));
                let d = seq![IoEvent::Read(c)];
                assert(r1.machine.log =~= m1.log + d);
                assert(r2.machine.log =~= m2.log + d);
                lemma_agree_by(m1, r1, m2, r2, d);
            } else {
                lemma_agree_by(m1, r1, m2, r2, Seq::empty());
            }
        },
        Ir::ReadCharForget => {
            let c = next_byte(i1, taken(m1.log));
            assert(c == next_byte(i2, taken(m2.log)));
            let d = seq![IoEvent::Read(c)];
            assert(r1.machine.log =~= m1.log + d);
            assert(r2.machine.log =~= m2.log + d);
            lemma_agree_by(m1, r1, m2, r2, d);
        },
        Ir::PrintString { value } => {
            lemma_print_all(m1, value);
            lemma_print_all(m2, value);
            lemma_agree_by(m1, r1, m2, r2, writes(value));
        },
        _ => {
            assert(r1.machine.log =~= m1.log + Seq::<IoEvent>::empty());
            assert(r2.machine.log =~= m2.log + Seq::<IoEvent>::empty());
            lemma_agree_by(m1, r1, m2, r2, Seq::empty());
        },
    }
}

/// The same for a list of trees.
pub proof fn lemma_seq_agree(
    body: Seq<Ir>,
    m1: Machine,
    m2: Machine,
    i1: Seq<u8>,
    i2: Seq<u8>,
    fuel: nat,
)
    requires
        same_state(m1, m2),
        any_reads(body) ==> same_rest(i1, taken(m1.log), i2, taken(m2.log)),
    ensures
        agree(m1, exec_seq(body, m1, i1, fuel), m2, exec_seq(body, m2, i2, fuel)),
        !any_reads(body) ==> reads(delta(m1, exec_seq(body, m1, i1, fuel).machine)).len() == 0,
        m1.cells.len() <= usize::MAX ==> exec_seq(body, m1, i1, fuel).machine.cells.len()
            <= usize::MAX,
    decreases fuel, body, 1nat,
{
    let r1 = exec_seq(body, m1, i1, fuel);
    let r2 = exec_seq(body, m2, i2, fuel);
    if body.len() == 0 {
        assert(r1.machine.log =~= m1.log + Seq::<IoEvent>::empty());
        assert(r2.machine.log =~= m2.log + Seq::<IoEvent>::empty());
        lemma_agree_by(m1, r1, m2, r2, Seq::empty());
    } else {
        let front = body.drop_last();
        if any_reads(front) {
            let w = choose|i: int| 0 <= i < front.len() && reads_input(#[trigger] front[i]);
            assert(reads_input(body[w]));
        }
        lemma_seq_agree(front, m1, m2, i1, i2, fuel);
        let b1 = exec_seq(front, m1, i1, fuel);
        let b2 = exec_seq(front, m2, i2, fuel);
        if b1.fault is None {
            if reads_input(body.last()) {
                assert(reads_input(body[body.len() - 1]));
                lemma_rest_after(m1, b1, m2, b2, i1, i2);
            }
            lemma_exec_agree(body.last(), b1.machine, b2.machine, i1, i2, fuel);
            lemma_agree_on(m1, b1, r1, m2, b2, r2);
            lemma_reads_add(delta(m1, b1.machine), delta(b1.machine, r1.machine));
        }
        if !any_reads(body) {
            assert(!reads_input(body[body.len() - 1]));
            assert forall|i: int| 0 <= i < front.len() implies !reads_input(#[trigger] front[i]) by {
                assert(front[i] == body[i]);
            }
        }
    }
}

/// The same for a loop.
pub proof fn lemma_loop_agree(
    inner: Ir,
    m1: Machine,
    m2: Machine,
    i1: Seq<u8>,
    i2: Seq<u8>,
    fuel: nat,
)
    requires
        same_state(m1, m2),
        reads_input(inner) ==> same_rest(i1, taken(m1.log), i2, taken(m2.log)),
    ensures
        agree(m1, exec_loop(inner, m1, i1, fuel), m2, exec_loop(inner, m2, i2, fuel)),
        !reads_input(inner) ==> reads(delta(m1, exec_loop(inner, m1, i1, fuel).machine)).len()
            == 0,
        m1.cells.len() <= usize::MAX ==> exec_loop(inner, m1, i1, fuel).machine.cells.len()
            <= usize::MAX,
    decreases fuel, inner, 1nat,
{
    let r1 = exec_loop(inner, m1, i1, fuel);
    let r2 = exec_loop(inner, m2, i2, fuel);
    if !m1.in_range() {
        lemma_agree_by(m1, r1, m2, r2, Seq::empty());
    } else {
        let probe = seq![IoEvent::Probe(m1.ptr)];
        let l1 = m1.logged(IoEvent::Probe(m1.ptr)).grown(m1.ptr);
        let l2 = m2.logged(IoEvent::Probe(m2.ptr)).grown(m2.ptr);
        assert(l1.log =~= m1.log + probe);
        assert(l2.log =~= m2.log + probe);
        lemma_log_push(Seq::<IoEvent>::empty(), IoEvent::Probe(m1.ptr));
        assert(probe =~= Seq::<IoEvent>::empty().push(IoEvent::Probe(m1.ptr)));
        if l1.cell(m1.ptr) == 0 || fuel == 0 {
            lemma_agree_by(m1, r1, m2, r2, probe);
        } else {
            let looked1 = Outcome { machine: l1, fault: None };
            let looked2 = Outcome { machine: l2, fault: None };
            lemma_agree_by(m1, looked1, m2, looked2, probe);
            if reads_input(inner) {
                lemma_rest_after(m1, looked1, m2, looked2, i1, i2);
            }
            lemma_exec_agree(inner, l1, l2, i1, i2, (fuel - 1) as nat);
            let round1 = exec(inner, l1, i1, (fuel - 1) as nat);
            let round2 = exec(inner, l2, i2, (fuel - 1) as nat);
            lemma_agree_on(m1, looked1, round1, m2, looked2, round2);
            lemma_reads_add(delta(m1, l1), delta(l1, round1.machine));
            if round1.fault is None {
                if reads_input(inner) {
                    lemma_rest_after(l1, round1, l2, round2, i1, i2);
                }
                lemma_loop_agree(inner, round1.machine, round2.machine, i1, i2, (fuel - 1) as nat);
                lemma_agree_on(m1, round1, r1, m2, round2, r2);
                lemma_reads_add(delta(m1, round1.machine), delta(round1.machine, r1.machine));
            }
        }
    }
}

} // verus!
