//! Rewriting passes over the instruction tree, and the optimizer that runs
//! them to a fixed point.

use crate::interpreter::{fault_of, lemma_replay_unfold, replay, Handler, Interpreter};
use crate::ir::{
    copy_bytes, irs_of, lemma_block_view, reads_input, touches_memory, Expr, Ir,
};
use crate::machine::{
    exec, extends, feeds, fresh, lemma_feeds_prefix, next_byte, reads, IoEvent, Machine, Outcome,
};
use vstd::prelude::*;

verus! {

/// A pass: rewrites an instruction tree in place.
///
/// `rewritten` says what the pass makes of a tree. Running the pass does not
/// change what it makes of trees later.
pub trait OptimizePass {
    /// The tree that this pass makes of `ir`.
    spec fn rewritten(&self, ir: Ir) -> Ir;

    /// Rewrites `expr`.
    fn optimize(&mut self, expr: &mut Expr)
        ensures
            final(expr)@ == old(self).rewritten(old(expr)@),
            forall|ir: Ir| #[trigger] final(self).rewritten(ir) == old(self).rewritten(ir),
    ;
}

/// True iff `ir` is a loop whose body is a block of exactly one instruction,
/// a decrement by one.
pub open spec fn clears_cell(ir: Ir) -> bool {
    &&& ir matches Ir::Loop { inner }
    &&& *inner matches Ir::Block { body }
    &&& body.len() == 1
    &&& body[0] == Ir::Decrement { num: 1 }
}

/// The tree after the zero-loop pass: each loop that clears its cell, met
/// as the tree itself or by going down through blocks only, is an assignment
/// of zero to the current cell; the rest is as it was.
pub open spec fn zero_looped(ir: Ir) -> Ir
    decreases ir,
{
    match ir {
        Ir::Block { body } => Ir::Block {
            body: Seq::new(
                body.len(),
                |i: int|
                    if 0 <= i < body.len() {
                        zero_looped(body[i])
                    } else {
                        Ir::PrintChar
                    },
            ),
        },
        Ir::Loop { .. } => if clears_cell(ir) {
            Ir::AssignCurrent { value: 0 }
        } else {
            ir
        },
        _ => ir,
    }
}

/// Each tree of a list after the zero-loop pass.
pub open spec fn zero_looped_all(body: Seq<Ir>) -> Seq<Ir> {
    Seq::new(body.len(), |i: int| zero_looped(body[i]))
}

/// What the zero-loop pass makes of a block, stated over the list of its
/// children.
pub proof fn lemma_zero_looped_block(body: Seq<Ir>)
    ensures
        zero_looped(Ir::Block { body }) == (Ir::Block { body: zero_looped_all(body) }),
{
    assert(zero_looped(Ir::Block { body })->body =~= zero_looped_all(body));
}

/// True iff `body` is a block of exactly one instruction, a decrement by one.
fn decrements_once(body: &Expr) -> (r: bool)
    ensures
        r == clears_cell(Ir::Loop { inner: Box::new(body@) }),
{
    match body {
        Expr::Block { exprs } => {
            proof {
                lemma_block_view(*exprs);
            }
            if exprs.len() != 1 {
                return false;
            }
            assert(irs_of(exprs@)[0] == exprs@[0]@);
            match &exprs[0] {
                Expr::Decrement { num } => *num == 1,
                _ => false,
            }
        },
        _ => false,
    }
}

/// The pass that turns a loop which clears its cell into an assignment.
pub struct ZeroLoopOptimizer;

impl OptimizePass for ZeroLoopOptimizer {
    open spec fn rewritten(&self, ir: Ir) -> Ir {
        zero_looped(ir)
    }

    /// Rewrites each loop that clears its cell, met as the tree itself or
    /// by going down through blocks only.
    #[verifier::loop_isolation(false)]
    fn optimize(&mut self, top_expr: &mut Expr)
        decreases *old(top_expr),
    {
        match top_expr {
            Expr::Block { exprs } => {
                let ghost before = exprs@;
                proof {
                    assert(*old(top_expr) matches Expr::Block { exprs: v } && v@ == before);
                    lemma_block_view(old(top_expr)->exprs);
                }
                let n = exprs.len();
                let mut i: usize = 0;
                while i < n
                    invariant
                        i <= n,
                        n == exprs.len(),
                        n == before.len(),
                        forall|k: int| 0 <= k < i ==> exprs@[k]@ == zero_looped(before[k]@),
                        forall|k: int| i <= k < n ==> exprs@[k] == before[k],
                    decreases n - i,
                {
                    self.optimize(&mut exprs[i]);
                    i += 1;
                }
                proof {
                    lemma_block_view(*exprs);
                    lemma_zero_looped_block(irs_of(before));
                    assert(irs_of(exprs@) =~= zero_looped_all(irs_of(before)));
                }
            },
            Expr::Loop { expr } => {
                if decrements_once(expr) {
                    *top_expr = Expr::AssignCurrent { value: 0 };
                }
            },
            _ => {},
        }
    }
}

/// The segments after one more byte was written: it goes to the end of the
/// last segment.
pub open spec fn appended(segments: Seq<Seq<u8>>, c: u8) -> Seq<Seq<u8>> {
    if segments.len() == 0 {
        seq![seq![c]]
    } else {
        segments.update(segments.len() - 1, segments.last().push(c))
    }
}

/// The segments after the exchanges `events`: each byte written goes to the
/// end of the last segment, and nothing else changes them.
pub open spec fn absorbed(segments: Seq<Seq<u8>>, events: Seq<IoEvent>) -> Seq<Seq<u8>>
    decreases events.len(),
{
    if events.len() == 0 {
        segments
    } else {
        let before = absorbed(segments, events.drop_last());
        match events.last() {
            IoEvent::Write(c) => appended(before, c),
            _ => before,
        }
    }
}

/// Absorbing exchanges closes no segment, and opens one only where there is
/// none.
pub proof fn lemma_absorbed_len(segments: Seq<Seq<u8>>, events: Seq<IoEvent>)
    ensures
        absorbed(segments, events).len() >= segments.len(),
        segments.len() > 0 ==> absorbed(segments, events).len() == segments.len(),
    decreases events.len(),
{
    if events.len() > 0 {
        lemma_absorbed_len(segments, events.drop_last());
    }
}

/// The handler of the speculative run: it has no input, so every read gives
/// zero, and it keeps what is written, in segments. The pass opens a new
/// segment at each read.
pub struct SpecExecHandler {
    pub out: Vec<Vec<u8>>,
}

impl SpecExecHandler {
    /// The segments, as byte strings.
    pub open spec fn segments(&self) -> Seq<Seq<u8>> {
        Seq::new(self.out@.len(), |i: int| self.out@[i]@)
    }

    /// A handler with one segment, which is empty.
    fn new() -> (h: Self)
        ensures
            h.segments() == seq![Seq::<u8>::empty()],
    {
        let mut out: Vec<Vec<u8>> = Vec::new();
        out.push(Vec::new());
        let h = Self { out };
        assert(h.segments() =~= seq![Seq::<u8>::empty()]);
        h
    }

    /// Puts `c` at the end of the last segment.
    fn print(&mut self, c: u8)
        ensures
            final(self).segments() == appended(old(self).segments(), c),
    {
        if self.out.len() == 0 {
            self.out.push(Vec::new());
        }
        let last = self.out.len() - 1;
        self.out[last].push(c);
        assert(self.segments() =~= appended(old(self).segments(), c));
    }
}

impl Handler for SpecExecHandler {
    open spec fn evolves(&self, event: IoEvent, next: &Self) -> bool {
        match event {
            IoEvent::Read(c) => c == 0 && next.segments() == self.segments(),
            IoEvent::Write(c) => next.segments() == appended(self.segments(), c),
            IoEvent::Probe(_) => next.segments() == self.segments(),
        }
    }

    fn read_char(&mut self) -> (c: u8) {
        0
    }

    fn write_char(&mut self, c: u8) {
        self.print(c);
    }

    fn mem_read(&mut self, _index: usize) {
    }
}

/// What a speculative handler holds after some exchanges, and what it gave.
pub proof fn lemma_capture(pre: SpecExecHandler, events: Seq<IoEvent>, post: SpecExecHandler)
    requires
        replay(pre, events, post),
    ensures
        post.segments() == absorbed(pre.segments(), events),
        feeds(Seq::empty(), events),
    decreases events.len(),
{
    if events.len() > 0 {
        lemma_replay_unfold(pre, events, post);
        let mid = choose|mid: SpecExecHandler|
            replay(pre, events.drop_last(), mid) && #[trigger] mid.evolves(events.last(), &post);
        lemma_capture(pre, events.drop_last(), mid);
        assert forall|k: int| 0 <= k < reads(events).len() implies next_byte(
            Seq::empty(),
            k as nat,
        ) == #[trigger] reads(events)[k] by {
            if k < reads(events.drop_last()).len() {
                assert(reads(events)[k] == reads(events.drop_last())[k]);
            }
        }
    }
}

/// A log of zero reads, gone on by zero reads, is a log of zero reads.
pub proof fn lemma_quiet_on(before: Seq<IoEvent>, after: Seq<IoEvent>)
    requires
        extends(before, after),
        feeds(Seq::empty(), before),
        feeds(Seq::empty(), after.skip(before.len() as int)),
    ensures
        feeds(Seq::empty(), after),
    decreases after.len() - before.len(),
{
    if before.len() == after.len() {
        assert(after.take(before.len() as int) =~= after);
    } else {
        let shorter = after.drop_last();
        let rest = after.skip(before.len() as int);
        assert(shorter.take(before.len() as int) =~= after.take(before.len() as int));
        assert(shorter.skip(before.len() as int) =~= rest.drop_last());
        assert(extends(rest.drop_last(), rest)) by {
            assert(rest.take(rest.len() - 1) =~= rest.drop_last());
        }
        lemma_feeds_prefix(Seq::empty(), rest.drop_last(), rest);
        lemma_quiet_on(before, shorter);
        assert(rest.last() == after.last());
        assert forall|k: int| 0 <= k < reads(after).len() implies next_byte(
            Seq::empty(),
            k as nat,
        ) == #[trigger] reads(after)[k] by {
            if k < reads(shorter).len() {
                assert(reads(after)[k] == reads(shorter)[k]);
            } else {
                assert(reads(rest)[reads(rest).len() - 1] == reads(after)[k]);
            }
        }
    }
}

/// True iff nothing from the child at `from` onward touches the tape or the
/// pointer.
pub open spec fn tail_is_pure(body: Seq<Ir>, from: int) -> bool {
    forall|j: int| from <= j < body.len() ==> !touches_memory(#[trigger] body[j])
}

/// True iff the child after the one at `i` overwrites the current cell.
pub open spec fn next_overwrites(body: Seq<Ir>, i: int) -> bool {
    i + 1 < body.len() && body[i + 1] is AssignCurrent
}

/// True iff the speculative run goes through the child at `i`: it reads no
/// input, or what it reads is overwritten at once, or nothing from it onward
/// touches the tape.
pub open spec fn speculates(body: Seq<Ir>, i: int) -> bool {
    !reads_input(body[i]) || next_overwrites(body, i) || tail_is_pure(body, i)
}

/// How a speculative run ended.
pub enum WalkEnd {
    /// It went through every child.
    Finished,
    /// It stopped before a child whose input is needed later.
    Split,
    /// A child faulted.
    Abandoned,
}

/// Where a speculative run ended: the machine, the output in segments, the
/// index of the child at which it stopped, and how it ended.
pub struct Walk {
    pub sim: Machine,
    pub segments: Seq<Seq<u8>>,
    pub at: nat,
    pub end: WalkEnd,
}

/// The speculative run over the children of a top-level block, from the
/// child at `i` on, with the machine `sim` and the output so far in
/// `segments`. Each child runs on an input stream that is empty.
pub open spec fn walk(body: Seq<Ir>, i: nat, sim: Machine, segments: Seq<Seq<u8>>, fuel: nat) -> Walk
    decreases body.len() - i,
{
    if i >= body.len() {
        Walk { sim, segments, at: i, end: WalkEnd::Finished }
    } else if !speculates(body, i as int) {
        Walk { sim, segments, at: i, end: WalkEnd::Split }
    } else {
        let opened = if reads_input(body[i as int]) {
            segments.push(Seq::empty())
        } else {
            segments
        };
        let ran = exec(body[i as int], sim, Seq::empty(), fuel);
        let written = absorbed(opened, ran.machine.log.skip(sim.log.len() as int));
        if ran.fault is Some {
            Walk { sim: ran.machine, segments: written, at: i, end: WalkEnd::Abandoned }
        } else {
            walk(body, i + 1, ran.machine, written, fuel)
        }
    }
}

/// One assignment for each cell of a tape, in index order.
pub open spec fn assigns(cells: Seq<u8>) -> Seq<Ir> {
    Seq::new(cells.len(), |k: int| Ir::Assign { index: k as nat, value: cells[k] })
}

/// The instructions that give back what a speculative run wrote and took:
/// each segment but the last as a `PrintString` with a `ReadCharForget` after
/// it, then the last segment as a `PrintString`.
pub open spec fn replay_nodes(segments: Seq<Seq<u8>>) -> Seq<Ir> {
    if segments.len() == 0 {
        Seq::empty()
    } else {
        Seq::new(
            (2 * segments.len() - 1) as nat,
            |k: int|
                if k % 2 == 0 {
                    Ir::PrintString { value: segments[k / 2] }
                } else {
                    Ir::ReadCharForget
                },
        )
    }
}

/// The tree after the speculative-execution pass, whose run has `fuel`.
///
/// Only a block is rewritten. If the run went through every child, the block
/// holds what gives back its output and its reads. If it stopped before a
/// child, the block holds the tape as assignments, then the output and the
/// reads, then the pointer, then the children from that child on. If a child
/// faulted, the block is as it was.
pub open spec fn speculated(ir: Ir, fuel: nat) -> Ir {
    match ir {
        Ir::Block { body } => {
            let w = walk(body, 0, fresh(), seq![Seq::empty()], fuel);
            match w.end {
                WalkEnd::Abandoned => ir,
                WalkEnd::Finished => Ir::Block { body: replay_nodes(w.segments) },
                WalkEnd::Split => Ir::Block {
                    body: assigns(w.sim.cells) + replay_nodes(w.segments) + seq![
                        Ir::SetCellPointer { value: w.sim.ptr },
                    ] + body.skip(w.at as int),
                },
            }
        },
        _ => ir,
    }
}

/// Adds one assignment for each cell of `cells` to `nodes`.
fn push_assigns(nodes: &mut Vec<Expr>, cells: &[u8])
    ensures
        irs_of(final(nodes)@) == irs_of(old(nodes)@) + assigns(cells@),
{
    let ghost base = irs_of(nodes@);
    let mut i: usize = 0;
    assert(irs_of(nodes@) =~= base + assigns(cells@).take(0));
    while i < cells.len()
        invariant
            i <= cells.len(),
            irs_of(nodes@) == base + assigns(cells@).take(i as int),
        decreases cells.len() - i,
    {
        let ghost before = nodes@;
        nodes.push(Expr::Assign { index: i, value: cells[i] });
        assert(irs_of(nodes@) =~= irs_of(before).push(assigns(cells@)[i as int]));
        assert(assigns(cells@).take(i + 1) =~= assigns(cells@).take(i as int).push(
            assigns(cells@)[i as int],
        ));
        assert(irs_of(nodes@) =~= base + assigns(cells@).take(i + 1));
        i += 1;
    }
    assert(assigns(cells@).take(i as int) =~= assigns(cells@));
}

/// The segments of a list of byte strings.
pub open spec fn segments_of(out: Seq<Vec<u8>>) -> Seq<Seq<u8>> {
    Seq::new(out.len(), |i: int| out[i]@)
}

/// Adds to `nodes` what gives back the output and the reads of `out`.
fn push_replay(nodes: &mut Vec<Expr>, out: &Vec<Vec<u8>>)
    requires
        out@.len() > 0,
    ensures
        irs_of(final(nodes)@) == irs_of(old(nodes)@) + replay_nodes(segments_of(out@)),
{
    let ghost base = irs_of(nodes@);
    let ghost all = replay_nodes(segments_of(out@));
    let last = out.len() - 1;
    let mut i: usize = 0;
    assert(irs_of(nodes@) =~= base + all.take(0));
    while i < last
        invariant
            i <= last,
            last == out@.len() - 1,
            all == replay_nodes(segments_of(out@)),
            irs_of(nodes@) == base + all.take(2 * i),
        decreases last - i,
    {
        let ghost before = nodes@;
        nodes.push(Expr::PrintString { value: copy_bytes(&out[i]) });
        let ghost mid = nodes@;
        nodes.push(Expr::ReadCharForget);
        assert(all[2 * i] == Ir::PrintString { value: out@[i as int]@ });
        assert(all[2 * i + 1] == Ir::ReadCharForget);
        assert(irs_of(mid) =~= irs_of(before).push(all[2 * i]));
        assert(irs_of(nodes@) =~= irs_of(mid).push(all[2 * i + 1]));
        assert(all.take(2 * (i + 1)) =~= all.take(2 * i).push(all[2 * i]).push(all[2 * i + 1]));
        assert(irs_of(nodes@) =~= base + all.take(2 * (i + 1)));
        i += 1;
    }
    let ghost before = nodes@;
    nodes.push(Expr::PrintString { value: copy_bytes(&out[last]) });
    assert(all[2 * last] == Ir::PrintString { value: out@[last as int]@ });
    assert(irs_of(nodes@) =~= irs_of(before).push(all[2 * last]));
    assert(all =~= all.take(2 * last).push(all[2 * last]));
    assert(irs_of(nodes@) =~= base + all);
}

/// Adds copies of the children of `exprs` from `from` on to `nodes`.
fn push_rest(nodes: &mut Vec<Expr>, exprs: &Vec<Expr>, from: usize)
    requires
        from <= exprs@.len(),
    ensures
        irs_of(final(nodes)@) == irs_of(old(nodes)@) + irs_of(exprs@).skip(from as int),
{
    let ghost base = irs_of(nodes@);
    let ghost rest = irs_of(exprs@).skip(from as int);
    let mut i: usize = from;
    assert(irs_of(nodes@) =~= base + rest.take(0));
    while i < exprs.len()
        invariant
            from <= i <= exprs.len(),
            rest == irs_of(exprs@).skip(from as int),
            irs_of(nodes@) == base + rest.take(i - from),
        decreases exprs.len() - i,
    {
        let ghost before = nodes@;
        nodes.push(exprs[i].clone());
        assert(irs_of(nodes@) =~= irs_of(before).push(rest[i - from]));
        assert(rest.take(i + 1 - from) =~= rest.take(i - from).push(rest[i - from]));
        assert(irs_of(nodes@) =~= base + rest.take(i + 1 - from));
        i += 1;
    }
    assert(rest.take(i - from) =~= rest);
}

/// True iff nothing in `exprs` from `from` on touches the tape or the pointer.
fn tail_pure(exprs: &Vec<Expr>, from: usize) -> (r: bool)
    requires
        from <= exprs@.len(),
    ensures
        r == tail_is_pure(irs_of(exprs@), from as int),
{
    let mut j: usize = from;
    while j < exprs.len()
        invariant
            from <= j <= exprs.len(),
            forall|k: int| from <= k < j ==> !touches_memory(#[trigger] irs_of(exprs@)[k]),
        decreases exprs.len() - j,
    {
        if exprs[j].uses_memory() {
            assert(touches_memory(irs_of(exprs@)[j as int]));
            return false;
        }
        j += 1;
    }
    true
}

/// True iff the speculative run goes through the child at `i`.
fn goes_through(exprs: &Vec<Expr>, i: usize) -> (r: bool)
    requires
        i < exprs@.len(),
        reads_input(irs_of(exprs@)[i as int]),
    ensures
        r == speculates(irs_of(exprs@), i as int),
{
    if i < exprs.len() - 1 {
        if let Expr::AssignCurrent { .. } = &exprs[i + 1] {
            assert(irs_of(exprs@)[i + 1] is AssignCurrent);
            return true;
        }
        assert(!(irs_of(exprs@)[i + 1] is AssignCurrent));
    }
    tail_pure(exprs, i)
}

/// The speculative-execution pass: runs the top-level block as far as no
/// input is needed, and writes down what came of it.
pub struct SpecExecOptimizer;

impl OptimizePass for SpecExecOptimizer {
    open spec fn rewritten(&self, ir: Ir) -> Ir {
        speculated(ir, u64::MAX as nat)
    }

    /// Runs the children of a block on a fresh machine with no input, up to
    /// the first read that is needed later, and puts what came of it in
    /// their place. A tree that is no block, and a block whose run faults,
    /// stay as they are.
    #[verifier::loop_isolation(false)]
    fn optimize(&mut self, top_expr: &mut Expr) {
        if let Expr::Block { exprs } = top_expr {
            proof {
                lemma_block_view(*exprs);
            }
            let ghost body = irs_of(exprs@);
            let ghost whole = walk(body, 0, fresh(), seq![Seq::empty()], u64::MAX as nat);
            let mut vm = Interpreter::new(SpecExecHandler::new());
            assert(vm.handler.segments().len() == 1);
            assert(body == old(top_expr)@->body);
            let mut read_pos: Option<usize> = None;
            let mut i: usize = 0;
            while i < exprs.len() && read_pos.is_none()
                invariant
                    i <= exprs.len(),
                    vm.fuel == u64::MAX,
                    feeds(Seq::empty(), vm@.log),
                    vm.handler.out@.len() > 0,
                    read_pos is None ==> whole == walk(
                        body,
                        i as nat,
                        vm@,
                        vm.handler.segments(),
                        u64::MAX as nat,
                    ),
                    read_pos is Some ==> read_pos == Some(i) && whole == (Walk {
                        sim: vm@,
                        segments: vm.handler.segments(),
                        at: i as nat,
                        end: WalkEnd::Split,
                    }),
                decreases exprs.len() - i, (if read_pos is None { 1nat } else { 0nat }),
            {
                let reading = exprs[i].contains_read();
                assert(body[i as int] == exprs@[i as int]@);
                if reading && !goes_through(exprs, i) {
                    read_pos = Some(i);
                } else {
                    if reading {
                        let ghost closed = vm.handler.segments();
                        vm.handler.out.push(Vec::new());
                        assert(vm.handler.segments() =~= closed.push(Seq::empty()));
                    }
                    let ghost before = vm;
                    let res = vm.run(&exprs[i]);
                    proof {
                        let events = vm@.log.skip(before@.log.len() as int);
                        lemma_capture(before.handler, events, vm.handler);
                        lemma_quiet_on(before@.log, vm@.log);
                        lemma_absorbed_len(before.handler.segments(), events);
                        let out = Outcome { machine: vm@, fault: fault_of(res) };
                        assert(feeds(Seq::empty(), out.machine.log));
                        assert(exec(body[i as int], before@, Seq::empty(), u64::MAX as nat) == out);
                        assert(speculates(body, i as int));
                    }
                    if res.is_err() {
                        return ;
                    }
                    i += 1;
                }
            }
            let mut nodes: Vec<Expr> = Vec::new();
            assert(irs_of(nodes@) =~= Seq::<Ir>::empty());
            assert(segments_of(vm.handler.out@) =~= vm.handler.segments());
            match read_pos {
                Some(pos) => {
                    push_assigns(&mut nodes, vm.cells());
                    push_replay(&mut nodes, &vm.handler.out);
                    let ghost before = nodes@;
                    nodes.push(Expr::SetCellPointer { value: vm.current_cell_index() });
                    assert(irs_of(nodes@) =~= irs_of(before).push(
                        Ir::SetCellPointer { value: vm@.ptr },
                    ));
                    push_rest(&mut nodes, exprs, pos);
                    assert(irs_of(nodes@) =~= assigns(vm@.cells) + replay_nodes(
                        vm.handler.segments(),
                    ) + seq![Ir::SetCellPointer { value: vm@.ptr }] + body.skip(pos as int));
                },
                None => {
                    push_replay(&mut nodes, &vm.handler.out);
                    assert(irs_of(nodes@) =~= replay_nodes(vm.handler.segments()));
                },
            }
            proof {
                lemma_block_view(nodes);
            }
            *exprs = nodes;
        }
    }
}

/// A pass that the optimizer holds, as a trait object.
pub struct RegisteredPass {
    pub pass: Box<dyn OptimizePass>,
}

/// Puts `pass` in a box, as a trait object: `Box::new`, with the coercion to
/// `Box<dyn OptimizePass>`.
///
/// Taken on trust: a call through the box reaches `P`'s own `optimize`, so
/// the boxed pass makes of every tree what `pass` makes of it.
#[verifier::external_body]
fn boxed<P: OptimizePass + 'static>(pass: P) -> (slot: RegisteredPass)
    ensures
        forall|ir: Ir| #[trigger] slot.pass.rewritten(ir) == pass.rewritten(ir),
{
    RegisteredPass { pass: Box::new(pass) }
}

/// The tree after the first `upto` passes of `passes` ran on `ir`, in order.
pub open spec fn cycle(passes: Seq<RegisteredPass>, ir: Ir, upto: nat) -> Ir
    decreases upto,
{
    if upto == 0 || upto > passes.len() {
        ir
    } else {
        passes[upto - 1].pass.rewritten(cycle(passes, ir, (upto - 1) as nat))
    }
}

/// The tree after at most `rounds` full cycles of `passes` on `ir`: the
/// cycles end with the first one that changes nothing.
pub open spec fn settled(passes: Seq<RegisteredPass>, ir: Ir, rounds: nat) -> Ir
    decreases rounds,
{
    if rounds == 0 {
        ir
    } else {
        let next = cycle(passes, ir, passes.len());
        if next == ir {
            ir
        } else {
            settled(passes, next, (rounds - 1) as nat)
        }
    }
}

/// True iff the passes of `after` are as many as those of `before` and each
/// makes of every tree what its counterpart makes of it.
pub open spec fn same_passes(before: Seq<RegisteredPass>, after: Seq<RegisteredPass>) -> bool {
    &&& after.len() == before.len()
    &&& forall|k: int, ir: Ir|
        0 <= k < before.len() ==> #[trigger] after[k].pass.rewritten(ir) == before[k].pass.rewritten(
            ir,
        )
}

/// The optimizer: a tree and the passes to run on it, in the order in which
/// they were added.
pub struct Optimizer {
    /// The tree. Its root is a block.
    pub expr: Expr,
    /// The passes, first added first.
    pub passes: Vec<RegisteredPass>,
}

impl Optimizer {
    /// An optimizer for `expr` with no passes. A tree that is not a block
    /// becomes the only child of a new block.
    pub fn new(expr: Expr) -> (o: Self)
        ensures
            o.expr@ == (if expr@ is Block {
                expr@
            } else {
                Ir::Block { body: seq![expr@] }
            }),
            o.passes@.len() == 0,
    {
        let mut expr = expr;
        if !expr.is_block() {
            let ghost inner = expr@;
            let mut exprs: Vec<Expr> = Vec::new();
            exprs.push(expr);
            proof {
                lemma_block_view(exprs);
                assert(irs_of(exprs@) =~= seq![inner]);
            }
            expr = Expr::Block { exprs };
        }
        Optimizer { expr, passes: Vec::new() }
    }

    /// Adds `pass` after the passes that are there.
    pub fn add_pass<P: OptimizePass + 'static>(&mut self, pass: P)
        ensures
            final(self).expr == old(self).expr,
            final(self).passes@.len() == old(self).passes@.len() + 1,
            final(self).passes@.drop_last() == old(self).passes@,
            forall|ir: Ir| #[trigger]
                final(self).passes@.last().pass.rewritten(ir) == pass.rewritten(ir),
    {
        let slot = boxed(pass);
        self.passes.push(slot);
        assert(self.passes@.drop_last() =~= old(self).passes@);
    }

    /// Runs the passes in order, cycle after cycle, until a full cycle
    /// changes nothing or three cycles have run.
    #[verifier::loop_isolation(false)]
    pub fn optimize(&mut self)
        ensures
            final(self).expr@ == settled(old(self).passes@, old(self).expr@, 3),
            same_passes(old(self).passes@, final(self).passes@),
    {
        let ghost passes = self.passes@;
        let limit: usize = 3;
        let mut old_expr = self.expr.clone();
        let mut round: usize = 0;
        while round < limit
            invariant
                round <= limit,
                limit == 3,
                same_passes(passes, self.passes@),
                old_expr@ == self.expr@,
                settled(passes, old(self).expr@, 3) == settled(
                    passes,
                    self.expr@,
                    (limit - round) as nat,
                ),
            decreases limit - round,
        {
            let ghost before = self.expr@;
            let n = self.passes.len();
            let mut i: usize = 0;
            while i < n
                invariant
                    i <= n,
                    n == passes.len(),
                    same_passes(passes, self.passes@),
                    self.expr@ == cycle(passes, before, i as nat),
                decreases n - i,
            {
                self.passes[i].pass.optimize(&mut self.expr);
                i += 1;
            }
            if self.expr == old_expr {
                return ;
            } else {
                old_expr = self.expr.clone();
            }
            round += 1;
        }
    }
}

} // verus!
