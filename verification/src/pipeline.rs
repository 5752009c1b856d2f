//! The two passes, one after the other and cycle after cycle: what they
//! keep of a tree, and which trees they keep it of.

use crate::ir::{
    lemma_reads_input_block, lemma_touches_memory_block, reads_input, touches_memory, Ir,
};
use crate::machine::{exec, fresh, output, taken, Fault};
use crate::optimize::{
    assigns, clears_cell, cycle, lemma_zero_looped_block, replay_nodes,
    settled, speculated, speculates, tail_is_pure, walk, zero_looped, zero_looped_all,
    RegisteredPass, WalkEnd,
};
use crate::soundness::lemma_zero_loop_sound;
use crate::speculation::{lemma_speculation_sound, lemma_walk_at, plain, reads_plainly};
use vstd::prelude::*;

verus! {

/// True iff the tree overwrites the current cell whatever it held: an
/// assignment to it, or a loop that clears it.
pub open spec fn overwrites(ir: Ir) -> bool {
    ir is AssignCurrent || clears_cell(ir)
}

/// True iff the passes may come to run the child at `i` speculatively though
/// it reads: the child after it overwrites the current cell, or nothing
/// from it onward touches the tape.
pub open spec fn exposed(body: Seq<Ir>, i: int) -> bool {
    (i + 1 < body.len() && overwrites(body[i + 1])) || tail_is_pure(body, i)
}

/// True iff each child that reads and that the passes may come to run
/// speculatively is one read and nothing else.
pub open spec fn tame(body: Seq<Ir>) -> bool {
    forall|i: int|
        0 <= i < body.len() && reads_input(#[trigger] body[i]) && exposed(body, i) ==> plain(
            body[i],
        )
}

/// A tame list reads plainly.
pub proof fn lemma_tame_reads_plainly(body: Seq<Ir>)
    requires
        tame(body),
    ensures
        reads_plainly(body),
{
    assert forall|i: int|
        0 <= i < body.len() && reads_input(#[trigger] body[i]) && speculates(body, i) implies plain(
        body[i],
    ) by {
        assert(exposed(body, i));
    }
}

/// What the zero-loop pass keeps of a tree: whether it reads, whether it
/// touches the tape, and whether it is a plain read. After the pass no loop
/// clears its cell at the top, and an assignment to the current cell stands
/// just where the tree overwrote that cell.
pub proof fn lemma_zero_looped_traits(ir: Ir)
    ensures
        reads_input(zero_looped(ir)) == reads_input(ir),
        touches_memory(zero_looped(ir)) == touches_memory(ir),
        plain(zero_looped(ir)) == plain(ir),
        overwrites(zero_looped(ir)) == overwrites(ir),
    decreases ir,
{
    match ir {
        Ir::Block { body } => {
            lemma_zero_looped_block(body);
            let after = zero_looped_all(body);
            lemma_reads_input_block(body);
            lemma_reads_input_block(after);
            lemma_touches_memory_block(body);
            lemma_touches_memory_block(after);
            assert forall|i: int| 0 <= i < body.len() implies reads_input(#[trigger] after[i])
                == reads_input(body[i]) && touches_memory(after[i]) == touches_memory(body[i]) by {
                lemma_zero_looped_traits(body[i]);
            }
            if reads_input(ir) {
                let i = choose|i: int| 0 <= i < body.len() && reads_input(#[trigger] body[i]);
                assert(reads_input(after[i]));
            }
            if reads_input(zero_looped(ir)) {
                let i = choose|i: int| 0 <= i < after.len() && reads_input(#[trigger] after[i]);
                assert(reads_input(body[i]));
            }
            if touches_memory(ir) {
                let i = choose|i: int| 0 <= i < body.len() && touches_memory(#[trigger] body[i]);
                assert(touches_memory(after[i]));
            }
            if touches_memory(zero_looped(ir)) {
                let i = choose|i: int|
                    0 <= i < after.len() && touches_memory(#[trigger] after[i]);
                assert(touches_memory(body[i]));
            }
        },
        Ir::Loop { inner } => {
            if clears_cell(ir) {
                let body = inner->body;
                lemma_reads_input_block(body);
                lemma_touches_memory_block(body);
                assert(touches_memory(body[0]));
                assert(!reads_input(*inner)) by {
                    if reads_input(*inner) {
                        let i = choose|i: int|
                            0 <= i < body.len() && reads_input(#[trigger] body[i]);
                        assert(i == 0);
                    }
                }
            }
        },
        _ => {},
    }
}

/// The zero-loop pass keeps a tame list tame.
pub proof fn lemma_zero_loop_keeps_tame(body: Seq<Ir>)
    requires
        tame(body),
    ensures
        tame(zero_looped_all(body)),
{
    let after = zero_looped_all(body);
    assert forall|i: int| 0 <= i < body.len() implies reads_input(#[trigger] after[i])
        == reads_input(body[i]) && touches_memory(after[i]) == touches_memory(body[i]) && plain(
        after[i],
    ) == plain(body[i]) && overwrites(after[i]) == overwrites(body[i]) by {
        lemma_zero_looped_traits(body[i]);
    }
    assert forall|i: int|
        0 <= i < after.len() && reads_input(#[trigger] after[i]) && exposed(after, i) implies plain(
        after[i],
    ) by {
        assert(reads_input(body[i]));
        if i + 1 < after.len() && overwrites(after[i + 1]) {
            assert(overwrites(body[i + 1]));
        } else {
            assert(tail_is_pure(after, i));
            assert forall|j: int| i <= j < body.len() implies !touches_memory(
                #[trigger] body[j],
            ) by {
                assert(!touches_memory(after[j]));
            }
            assert(tail_is_pure(body, i));
        }
        assert(exposed(body, i));
    }
}

/// True iff no child of the list reads but by one plain read.
pub open spec fn reads_only_plainly(body: Seq<Ir>) -> bool {
    forall|i: int| 0 <= i < body.len() && reads_input(#[trigger] body[i]) ==> plain(body[i])
}

/// A tame list stays tame behind a list that reads only plainly.
pub proof fn lemma_tame_behind(head: Seq<Ir>, body: Seq<Ir>, at: int)
    requires
        0 <= at <= body.len(),
        tame(body),
        reads_only_plainly(head),
    ensures
        tame(head + body.skip(at)),
{
    let all = head + body.skip(at);
    let k = head.len() as int;
    assert forall|j: int|
        0 <= j < all.len() && reads_input(#[trigger] all[j]) && exposed(all, j) implies plain(
        all[j],
    ) by {
        if j < k {
            assert(all[j] == head[j]);
        } else {
            let i = j - k + at;
            assert(all[j] == body[i]);
            if j + 1 < all.len() && overwrites(all[j + 1]) {
                assert(all[j + 1] == body[i + 1]);
            } else {
                assert(tail_is_pure(all, j));
                assert forall|x: int| i <= x < body.len() implies !touches_memory(
                    #[trigger] body[x],
                ) by {
                    assert(all[x - at + k] == body[x]);
                    assert(!touches_memory(all[x - at + k]));
                }
                assert(tail_is_pure(body, i));
            }
            assert(exposed(body, i));
        }
    }
}

/// The speculative-execution pass keeps a tame list tame.
pub proof fn lemma_speculation_keeps_tame(body: Seq<Ir>, fuel: nat)
    requires
        tame(body),
    ensures
        speculated(Ir::Block { body }, fuel) is Block,
        tame(speculated(Ir::Block { body }, fuel)->body),
{
    let w = walk(body, 0, fresh(), seq![Seq::empty()], fuel);
    let after = speculated(Ir::Block { body }, fuel)->body;
    let back = replay_nodes(w.segments);
    assert(reads_only_plainly(back)) by {
        assert forall|i: int| 0 <= i < back.len() && reads_input(#[trigger] back[i]) implies plain(
            back[i],
        ) by {
            assert(back[i] is PrintString || back[i] is ReadCharForget);
        }
    }
    match w.end {
        WalkEnd::Abandoned => {},
        WalkEnd::Finished => {
            assert(after == back);
        },
        WalkEnd::Split => {
            lemma_walk_at(body, 0, fresh(), seq![Seq::empty()], fuel);
            let tape = assigns(w.sim.cells);
            let head = tape + back + seq![Ir::SetCellPointer { value: w.sim.ptr }];
            assert(reads_only_plainly(head)) by {
                assert forall|i: int|
                    0 <= i < head.len() && reads_input(#[trigger] head[i]) implies plain(
                    head[i],
                ) by {
                    if i < tape.len() {
                        assert(head[i] == tape[i]);
                        assert(head[i] is Assign);
                    } else if i < tape.len() + back.len() {
                        assert(head[i] == back[i - tape.len()]);
                    } else {
                        assert(head[i] is SetCellPointer);
                    }
                }
            }
            lemma_tame_behind(head, body, w.at as int);
            assert(after =~= head + body.skip(w.at as int));
        },
    }
}

/// True iff the passes are the two of the library in their order: first the
/// zero-loop pass, then the speculative-execution pass with all the fuel
/// there is.
pub open spec fn standard(passes: Seq<RegisteredPass>) -> bool {
    &&& passes.len() == 2
    &&& forall|ir: Ir| #[trigger] passes[0].pass.rewritten(ir) == zero_looped(ir)
    &&& forall|ir: Ir| #[trigger] passes[1].pass.rewritten(ir) == speculated(ir, u64::MAX as nat)
}

/// True iff `after` does on a fresh machine, with all the fuel there is and
/// on the stream `input`, what `before` does: unless the fuel runs out on
/// `before`, the same fault, the same output, as many bytes read.
pub open spec fn keeps(before: Ir, after: Ir, input: Seq<u8>) -> bool {
    let a = exec(before, fresh(), input, u64::MAX as nat);
    let b = exec(after, fresh(), input, u64::MAX as nat);
    a.fault != Some(Fault::Exhausted) ==> {
        &&& a.fault == b.fault
        &&& output(a.machine.log) == output(b.machine.log)
        &&& taken(a.machine.log) == taken(b.machine.log)
    }
}

/// One cycle of the two passes on a block whose children are tame: it gives
/// a block whose children are tame, which does what the block did.
pub proof fn lemma_cycle(passes: Seq<RegisteredPass>, body: Seq<Ir>, input: Seq<u8>)
    requires
        standard(passes),
        tame(body),
    ensures
        cycle(passes, Ir::Block { body }, 2) is Block,
        tame(cycle(passes, Ir::Block { body }, 2)->body),
        keeps(Ir::Block { body }, cycle(passes, Ir::Block { body }, 2), input),
{
    let ir = Ir::Block { body };
    let fuel = u64::MAX as nat;
    assert(cycle(passes, ir, 0) == ir);
    assert(cycle(passes, ir, 1) == passes[0].pass.rewritten(cycle(passes, ir, 0)));
    assert(cycle(passes, ir, 1) == zero_looped(ir));
    assert(cycle(passes, ir, 2) == passes[1].pass.rewritten(cycle(passes, ir, 1)));
    lemma_zero_looped_block(body);
    let mid = zero_looped_all(body);
    assert(cycle(passes, ir, 2) == speculated(Ir::Block { body: mid }, fuel));
    lemma_zero_loop_keeps_tame(body);
    lemma_speculation_keeps_tame(mid, fuel);
    lemma_zero_loop_sound(ir, fresh(), fresh(), input, fuel);
    lemma_tame_reads_plainly(mid);
    lemma_speculation_sound(mid, input, fuel);
}

/// The cycles of the two passes on a block whose children are tame: however
/// many there are, the tree that they end with does what the block did.
pub proof fn lemma_settled(
    passes: Seq<RegisteredPass>,
    body: Seq<Ir>,
    rounds: nat,
    input: Seq<u8>,
)
    requires
        standard(passes),
        tame(body),
    ensures
        keeps(Ir::Block { body }, settled(passes, Ir::Block { body }, rounds), input),
    decreases rounds,
{
    let ir = Ir::Block { body };
    if rounds > 0 {
        let next = cycle(passes, ir, passes.len());
        lemma_cycle(passes, body, input);
        if next != ir {
            lemma_settled(passes, next->body, (rounds - 1) as nat, input);
        }
    }
}

} // verus!
