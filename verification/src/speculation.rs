//! Why the speculative-execution pass keeps what a program writes and how
//! much it reads.

use crate::agreement::{
    delta, lemma_exec_agree, lemma_log_push, lemma_log_split, lemma_output_add, lemma_print_all,
    lemma_reads_add, lemma_seq_agree, same_state, writes,
};
use crate::ir::{reads_input, touches_memory, Ir};
use crate::machine::{
    done, exec, exec_seq, fresh, lemma_seq_concat, lemma_seq_one, next_byte, output, taken,
    zeros, IoEvent, Machine,
};
use crate::optimize::{
    absorbed, appended, assigns, next_overwrites, replay_nodes, speculated, speculates,
    tail_is_pure, walk, WalkEnd,
};
use vstd::prelude::*;

verus! {

/// True iff the tree is one read and nothing else.
pub open spec fn plain(ir: Ir) -> bool {
    ir is ReadChar || ir is ReadCharForget
}

/// True iff each child that the speculative run goes through, and that
/// reads input, is one read and nothing else.
pub open spec fn reads_plainly(body: Seq<Ir>) -> bool {
    forall|i: int|
        0 <= i < body.len() && reads_input(#[trigger] body[i]) && speculates(body, i) ==> plain(
            body[i],
        )
}

/// The segments, one after the other, as one byte string.
pub open spec fn joined(segments: Seq<Seq<u8>>) -> Seq<u8>
    decreases segments.len(),
{
    if segments.len() == 0 {
        Seq::empty()
    } else {
        joined(segments.drop_last()) + segments.last()
    }
}

/// One more segment at the end.
pub proof fn lemma_joined_push(segments: Seq<Seq<u8>>, s: Seq<u8>)
    ensures
        joined(segments.push(s)) == joined(segments) + s,
{
    assert(segments.push(s).drop_last() =~= segments);
}

/// One more byte at the end of the last segment.
pub proof fn lemma_appended(segments: Seq<Seq<u8>>, c: u8)
    requires
        segments.len() > 0,
    ensures
        appended(segments, c).len() == segments.len(),
        joined(appended(segments, c)) == joined(segments).push(c),
{
    let after = appended(segments, c);
    assert(after.drop_last() =~= segments.drop_last());
    assert(joined(after) =~= joined(segments).push(c));
}

/// What the segments hold after some exchanges: as many segments, with the
/// output of the exchanges at the end.
pub proof fn lemma_absorbed(segments: Seq<Seq<u8>>, events: Seq<IoEvent>)
    requires
        segments.len() > 0,
    ensures
        absorbed(segments, events).len() == segments.len(),
        joined(absorbed(segments, events)) == joined(segments) + output(events),
    decreases events.len(),
{
    if events.len() == 0 {
        assert(joined(segments) + output(events) =~= joined(segments));
    } else {
        lemma_absorbed(segments, events.drop_last());
        let before = absorbed(segments, events.drop_last());
        match events.last() {
            IoEvent::Write(c) => {
                lemma_appended(before, c);
                assert(joined(absorbed(segments, events)) =~= joined(segments) + output(events));
            },
            _ => {},
        }
    }
}

/// True iff the tape of `live` is the tape of `sim` but for the cell under
/// the pointer, and the child at `i` is about to overwrite that cell.
pub open spec fn pending(body: Seq<Ir>, i: int, live: Machine, sim: Machine) -> bool {
    &&& 0 <= i < body.len()
    &&& body[i] is AssignCurrent
    &&& live.cells.len() == sim.cells.len()
    &&& live.ptr < live.cells.len()
    &&& forall|k: int|
        0 <= k < live.cells.len() && k != live.ptr ==> #[trigger] live.cells[k] == sim.cells[k]
}

/// True iff the machine of the real run is, before the child at `i`, where
/// the speculative run is: the same pointer, the same tape but for a cell
/// that is about to be overwritten, the same output, as many reads.
pub open spec fn near(body: Seq<Ir>, i: int, live: Machine, sim: Machine) -> bool {
    &&& live.ptr == sim.ptr
    &&& (live.cells == sim.cells || pending(body, i, live, sim))
    &&& output(live.log) == output(sim.log)
    &&& taken(live.log) == taken(sim.log)
}

/// True iff the segments hold what the speculative run wrote, with one
/// segment more than it read bytes, and its tape can be addressed.
pub open spec fn kept(segments: Seq<Seq<u8>>, sim: Machine) -> bool {
    &&& segments.len() == taken(sim.log) + 1
    &&& joined(segments) == output(sim.log)
    &&& sim.cells.len() <= usize::MAX
}

/// One child of the speculative run: the real run ends it with the same
/// fault, and where there is none, the two runs are near each other again.
pub proof fn lemma_step(
    body: Seq<Ir>,
    i: nat,
    sim: Machine,
    segments: Seq<Seq<u8>>,
    live: Machine,
    input: Seq<u8>,
    fuel: nat,
)
    requires
        i < body.len(),
        reads_plainly(body),
        speculates(body, i as int),
        near(body, i as int, live, sim),
        kept(segments, sim),
    ensures
        ({
            let e = body[i as int];
            let opened = if reads_input(e) {
                segments.push(Seq::empty())
            } else {
                segments
            };
            let ran = exec(e, sim, Seq::empty(), fuel);
            let rr = exec(e, live, input, fuel);
            let written = absorbed(opened, delta(sim, ran.machine));
            &&& ran.fault == rr.fault
            &&& ran.fault is None ==> near(body, i as int + 1, rr.machine, ran.machine) && kept(
                written,
                ran.machine,
            )
        }),
{
    let e = body[i as int];
    let none = Seq::<u8>::empty();
    let opened = if reads_input(e) {
        segments.push(Seq::empty())
    } else {
        segments
    };
    let ran = exec(e, sim, none, fuel);
    let rr = exec(e, live, input, fuel);
    let d = delta(sim, ran.machine);
    let written = absorbed(opened, d);
    lemma_exec_agree(e, sim, sim, none, none, fuel);
    lemma_log_split(sim.log, ran.machine.log);
    lemma_absorbed(opened, d);
    lemma_joined_push(segments, Seq::empty());
    assert(joined(segments) + Seq::<u8>::empty() =~= joined(segments));
    if !reads_input(e) {
        if live.cells == sim.cells {
            lemma_exec_agree(e, live, sim, input, none, fuel);
            lemma_log_split(live.log, rr.machine.log);
        } else {
            assert(e is AssignCurrent);
            if live.in_range() {
                assert(rr.machine.cells =~= ran.machine.cells);
            }
        }
    } else {
        assert(plain(e));
        assert(!(e is AssignCurrent));
        assert(live.cells == sim.cells);
        let c = next_byte(input, taken(live.log));
        lemma_log_push(sim.log, IoEvent::Read(0));
        lemma_log_push(live.log, IoEvent::Read(c));
        if e is ReadChar {
            assert(touches_memory(body[i as int]));
            assert(!tail_is_pure(body, i as int));
            assert(next_overwrites(body, i as int));
            if live.in_range() {
                let s2 = ran.machine;
                let r2 = rr.machine;
                assert(s2.log == sim.log.push(IoEvent::Read(0)));
                assert(r2.log == live.log.push(IoEvent::Read(c)));
                assert(r2.cells.len() == s2.cells.len());
                assert(pending(body, i as int + 1, r2, s2));
            }
        } else {
            assert(ran.machine.log == sim.log.push(IoEvent::Read(0)));
            assert(rr.machine.log == live.log.push(IoEvent::Read(c)));
        }
    }
}

/// The speculative run from the child at `i` on: unless it is abandoned,
/// the real run goes through the same children without a fault, and ends
/// on the tape and pointer of the speculative run, with the output that the
/// segments hold and one read for each segment but the first.
pub proof fn lemma_walk(
    body: Seq<Ir>,
    i: nat,
    sim: Machine,
    segments: Seq<Seq<u8>>,
    live: Machine,
    input: Seq<u8>,
    fuel: nat,
)
    requires
        i <= body.len(),
        reads_plainly(body),
        near(body, i as int, live, sim),
        kept(segments, sim),
    ensures
        ({
            let w = walk(body, i, sim, segments, fuel);
            let p = exec_seq(body.subrange(i as int, w.at as int), live, input, fuel);
            &&& i <= w.at <= body.len()
            &&& w.end is Finished ==> w.at == body.len()
            &&& !(w.end is Abandoned) ==> {
                &&& p.fault is None
                &&& same_state(p.machine, w.sim)
                &&& output(p.machine.log) == joined(w.segments)
                &&& taken(p.machine.log) + 1 == w.segments.len()
                &&& w.sim.cells.len() <= usize::MAX
            }
        }),
    decreases body.len() - i,
{
    let w = walk(body, i, sim, segments, fuel);
    if i >= body.len() {
        assert(body.subrange(i as int, i as int) =~= Seq::<Ir>::empty());
    } else if !speculates(body, i as int) {
        assert(body.subrange(i as int, i as int) =~= Seq::<Ir>::empty());
        assert(reads_input(body[i as int]));
    } else {
        let e = body[i as int];
        let opened = if reads_input(e) {
            segments.push(Seq::empty())
        } else {
            segments
        };
        let ran = exec(e, sim, Seq::empty(), fuel);
        let rr = exec(e, live, input, fuel);
        let written = absorbed(opened, delta(sim, ran.machine));
        lemma_step(body, i, sim, segments, live, input, fuel);
        if ran.fault is None {
            lemma_walk(body, i + 1, ran.machine, written, rr.machine, input, fuel);
            if !(w.end is Abandoned) {
                let rest = body.subrange(i as int + 1, w.at as int);
                assert(body.subrange(i as int, w.at as int) =~= seq![e] + rest);
                lemma_seq_concat(seq![e], rest, live, input, fuel);
                lemma_seq_one(e, live, input, fuel);
            }
        }
    }
}

/// The speculative run stops at or after the child at which it started, and
/// within the list.
pub proof fn lemma_walk_at(
    body: Seq<Ir>,
    i: nat,
    sim: Machine,
    segments: Seq<Seq<u8>>,
    fuel: nat,
)
    requires
        i <= body.len(),
    ensures
        i <= walk(body, i, sim, segments, fuel).at <= body.len(),
    decreases body.len() - i,
{
    if i < body.len() && speculates(body, i as int) {
        let e = body[i as int];
        let opened = if reads_input(e) {
            segments.push(Seq::empty())
        } else {
            segments
        };
        let ran = exec(e, sim, Seq::empty(), fuel);
        if ran.fault is None {
            lemma_walk_at(
                body,
                i + 1,
                ran.machine,
                absorbed(opened, delta(sim, ran.machine)),
                fuel,
            );
        }
    }
}

/// What the instructions that give back a speculative run do: they write
/// the segments, read one byte between each two, and touch nothing else.
pub proof fn lemma_replay_runs(segments: Seq<Seq<u8>>, m: Machine, input: Seq<u8>, fuel: nat)
    requires
        segments.len() > 0,
    ensures
        ({
            let r = exec_seq(replay_nodes(segments), m, input, fuel);
            &&& r.fault is None
            &&& same_state(r.machine, m)
            &&& output(r.machine.log) == output(m.log) + joined(segments)
            &&& taken(r.machine.log) == taken(m.log) + segments.len() - 1
        }),
    decreases segments.len(),
{
    let last = Ir::PrintString { value: segments.last() };
    if segments.len() == 1 {
        assert(replay_nodes(segments) =~= seq![last]);
        lemma_seq_one(last, m, input, fuel);
        lemma_print_all(m, segments.last());
        let r = exec(last, m, input, fuel);
        assert(r.machine.log.take(m.log.len() as int) =~= m.log);
        assert(r.machine.log.skip(m.log.len() as int) =~= writes(
            segments.last(),
        ));
        lemma_log_split(m.log, r.machine.log);
        assert(segments.drop_last() =~= Seq::<Seq<u8>>::empty());
        assert(joined(segments.drop_last()) =~= Seq::<u8>::empty());
        assert(joined(segments) =~= segments.last());
    } else {
        let front = segments.drop_last();
        lemma_replay_runs(front, m, input, fuel);
        let two = seq![Ir::ReadCharForget, last];
        assert(replay_nodes(segments) =~= replay_nodes(front) + two);
        lemma_seq_concat(replay_nodes(front), two, m, input, fuel);
        let r1 = exec_seq(replay_nodes(front), m, input, fuel);
        assert(two =~= seq![Ir::ReadCharForget] + seq![last]);
        lemma_seq_concat(seq![Ir::ReadCharForget], seq![last], r1.machine, input, fuel);
        lemma_seq_one(Ir::ReadCharForget, r1.machine, input, fuel);
        let r2 = exec(Ir::ReadCharForget, r1.machine, input, fuel);
        lemma_log_push(
            r1.machine.log,
            IoEvent::Read(next_byte(input, taken(r1.machine.log))),
        );
        lemma_seq_one(last, r2.machine, input, fuel);
        let r3 = exec(last, r2.machine, input, fuel);
        lemma_print_all(r2.machine, segments.last());
        lemma_output_add(r2.machine.log, writes(segments.last()));
        lemma_reads_add(r2.machine.log, writes(segments.last()));
        assert(output(r3.machine.log) =~= output(m.log) + joined(segments));
    }
}

/// What the assignments of a tape do to an empty tape: they make it that
/// tape.
pub proof fn lemma_assigns_run(
    cells: Seq<u8>,
    ptr: nat,
    log: Seq<IoEvent>,
    input: Seq<u8>,
    fuel: nat,
)
    requires
        cells.len() <= usize::MAX,
    ensures
        exec_seq(assigns(cells), Machine { cells: Seq::empty(), ptr, log }, input, fuel) == done(
            Machine { cells, ptr, log },
        ),
    decreases cells.len(),
{
    let start = Machine { cells: Seq::empty(), ptr, log };
    if cells.len() == 0 {
        assert(assigns(cells) =~= Seq::<Ir>::empty());
        assert(cells =~= Seq::<u8>::empty());
    } else {
        let front = cells.drop_last();
        lemma_assigns_run(front, ptr, log, input, fuel);
        assert(assigns(cells).drop_last() =~= assigns(front));
        let n = (cells.len() - 1) as nat;
        assert(assigns(cells).last() == Ir::Assign { index: n, value: cells.last() });
        let before = Machine { cells: front, ptr, log };
        assert(before.stored(n, cells.last()).cells =~= cells) by {
            assert(before.grown(n).cells =~= front + zeros(1));
        }
        assert(exec_seq(assigns(cells).drop_last(), start, input, fuel) == done(before));
        assert(exec(assigns(cells).last(), before, input, fuel) == done(
            before.stored(n, cells.last()),
        ));
        assert(before.stored(n, cells.last()) == (Machine { cells, ptr, log }));
    }
}

/// The speculative-execution pass keeps the output and the count of reads
/// of a block that reads plainly, on a fresh machine with the fuel of the
/// pass: the block as it was and the block as rewritten end with the same
/// fault, the same output, and as many bytes read.
pub proof fn lemma_speculation_sound(body: Seq<Ir>, input: Seq<u8>, fuel: nat)
    requires
        reads_plainly(body),
    ensures
        ({
            let ir = Ir::Block { body };
            let a = exec(ir, fresh(), input, fuel);
            let b = exec(speculated(ir, fuel), fresh(), input, fuel);
            &&& a.fault == b.fault
            &&& output(a.machine.log) == output(b.machine.log)
            &&& taken(a.machine.log) == taken(b.machine.log)
        }),
{
    let ir = Ir::Block { body };
    let first = seq![Seq::<u8>::empty()];
    let w = walk(body, 0, fresh(), first, fuel);
    lemma_log_push(Seq::empty(), IoEvent::Probe(0));
    assert(first.drop_last() =~= Seq::<Seq<u8>>::empty());
    assert(joined(first.drop_last()) =~= Seq::<u8>::empty());
    assert(joined(first) =~= Seq::<u8>::empty());
    lemma_walk(body, 0, fresh(), first, fresh(), input, fuel);
    let p = exec_seq(body.subrange(0, w.at as int), fresh(), input, fuel);
    let rest = body.skip(w.at as int);
    assert(body =~= body.subrange(0, w.at as int) + rest);
    lemma_seq_concat(body.subrange(0, w.at as int), rest, fresh(), input, fuel);
    match w.end {
        WalkEnd::Abandoned => {},
        WalkEnd::Finished => {
            assert(rest =~= Seq::<Ir>::empty());
            lemma_replay_runs(w.segments, fresh(), input, fuel);
            assert(output(fresh().log) + joined(w.segments) =~= joined(w.segments));
        },
        WalkEnd::Split => {
            let x1 = assigns(w.sim.cells);
            let x2 = replay_nodes(w.segments);
            let set = Ir::SetCellPointer { value: w.sim.ptr };
            let emitted = x1 + x2 + seq![set] + rest;
            lemma_seq_concat(x1 + x2 + seq![set], rest, fresh(), input, fuel);
            lemma_seq_concat(x1 + x2, seq![set], fresh(), input, fuel);
            lemma_seq_concat(x1, x2, fresh(), input, fuel);
            lemma_assigns_run(w.sim.cells, 0, Seq::empty(), input, fuel);
            let r1 = exec_seq(x1, fresh(), input, fuel);
            lemma_replay_runs(w.segments, r1.machine, input, fuel);
            let r2 = exec_seq(x2, r1.machine, input, fuel);
            lemma_seq_one(set, r2.machine, input, fuel);
            let r3 = exec(set, r2.machine, input, fuel);
            assert(output(fresh().log) + joined(w.segments) =~= joined(w.segments));
            assert(same_state(p.machine, r3.machine));
            lemma_seq_agree(rest, p.machine, r3.machine, input, input, fuel);
            let a = exec_seq(rest, p.machine, input, fuel);
            let b = exec_seq(rest, r3.machine, input, fuel);
            lemma_log_split(p.machine.log, a.machine.log);
            lemma_log_split(r3.machine.log, b.machine.log);
        },
    }
}

} // verus!
