//! The interpreter: runs an instruction tree on a tape, talking to its
//! surroundings through a [`Handler`].

use crate::ir::{irs_of, lemma_block_view, Expr};
use crate::machine::{
    continues, done, exec, explains, explains_loop, explains_seq, extends, feeds, fresh,
    lemma_loop_end, lemma_loop_round, lemma_read_fed, lemma_seq_fault, lemma_seq_step, print_all,
    zeros, Fault, IoEvent, Machine, Outcome,
};
use vstd::prelude::*;

verus! {

/// What the interpreter needs from its surroundings.
///
/// Each handler says in `evolves` what it promises of one exchange: how the
/// handler after it relates to the handler before it, and, for a read, which
/// bytes may come. A handler that says nothing promises nothing.
pub trait Handler {
    /// True iff `next` may be this handler after the exchange `event`.
    open spec fn evolves(&self, event: IoEvent, next: &Self) -> bool {
        true
    }

    /// Hands out the next input byte; zero once the input has run out.
    fn read_char(&mut self) -> (c: u8)
        ensures
            old(self).evolves(IoEvent::Read(c), final(self)),
    ;

    /// Takes one byte of output.
    fn write_char(&mut self, c: u8)
        ensures
            old(self).evolves(IoEvent::Write(c), final(self)),
    ;

    /// Takes notice that the cell at `index` is about to be looked at, for a
    /// loop's test or for printing.
    fn mem_read(&mut self, index: usize)
        ensures
            old(self).evolves(IoEvent::Probe(index as nat), final(self)),
    ;
}

/// True iff a handler that was `pre` may be `post` after the exchanges
/// `events`, in that order.
pub open spec fn replay<T: Handler>(pre: T, events: Seq<IoEvent>, post: T) -> bool
    decreases events.len(),
{
    if events.len() == 0 {
        pre == post
    } else {
        exists|mid: T|
            replay(pre, events.drop_last(), mid) && #[trigger] mid.evolves(events.last(), &post)
    }
}

/// What `replay` says of a list that is not empty.
pub proof fn lemma_replay_unfold<T: Handler>(pre: T, events: Seq<IoEvent>, post: T)
    requires
        events.len() > 0,
    ensures
        replay(pre, events, post) == (exists|mid: T|
            replay(pre, events.drop_last(), mid) && #[trigger] mid.evolves(events.last(), &post)),
{
    assert(replay(pre, events, post) == (exists|mid: T|
        replay(pre, events.drop_last(), mid) && #[trigger] mid.evolves(events.last(), &post)));
}

/// One more exchange at the end of a replay.
pub proof fn lemma_replay_push<T: Handler>(
    pre: T,
    events: Seq<IoEvent>,
    mid: T,
    event: IoEvent,
    post: T,
)
    requires
        replay(pre, events, mid),
        mid.evolves(event, &post),
    ensures
        replay(pre, events.push(event), post),
{
    let all = events.push(event);
    assert(all.drop_last() =~= events);
    assert(replay(pre, all.drop_last(), mid) && mid.evolves(all.last(), &post));
    lemma_replay_unfold(pre, all, post);
}

/// Two replays, one after the other, are one replay.
pub proof fn lemma_replay_concat<T: Handler>(
    pre: T,
    first: Seq<IoEvent>,
    mid: T,
    second: Seq<IoEvent>,
    post: T,
)
    requires
        replay(pre, first, mid),
        replay(mid, second, post),
    ensures
        replay(pre, first + second, post),
    decreases second.len(),
{
    if second.len() == 0 {
        assert(first + second =~= first);
    } else {
        lemma_replay_unfold(mid, second, post);
        let last_but_one = choose|x: T|
            replay(mid, second.drop_last(), x) && #[trigger] x.evolves(second.last(), &post);
        lemma_replay_concat(pre, first, mid, second.drop_last(), last_but_one);
        let all = first + second;
        assert(all.drop_last() =~= first + second.drop_last());
        assert(replay(pre, all.drop_last(), last_but_one) && last_but_one.evolves(
            all.last(),
            &post,
        ));
        lemma_replay_unfold(pre, all, post);
    }
}

/// A handler with no input and no use for output: every read gives zero,
/// and what is written is dropped.
pub struct DefaultHandler;

impl Handler for DefaultHandler {
    open spec fn evolves(&self, event: IoEvent, next: &Self) -> bool {
        event matches IoEvent::Read(c) ==> c == 0
    }

    fn read_char(&mut self) -> (c: u8) {
        0
    }

    fn write_char(&mut self, _c: u8) {
    }

    fn mem_read(&mut self, _index: usize) {
    }
}

/// Why a run stopped early. The message names the fault.
#[derive(Debug)]
pub enum RuntimeError {
    GenericStr(&'static str),
}

/// The message that reports a fault.
pub open spec fn fault_message(fault: Fault) -> Seq<char> {
    match fault {
        Fault::Underflow => "pointer moved below the first cell"@,
        Fault::Overflow => "cell index out of range"@,
        Fault::Exhausted => "out of fuel"@,
    }
}

/// The fault that a message reports.
pub open spec fn fault_named(message: Seq<char>) -> Fault {
    if message == fault_message(Fault::Underflow) {
        Fault::Underflow
    } else if message == fault_message(Fault::Overflow) {
        Fault::Overflow
    } else {
        Fault::Exhausted
    }
}

/// The fault that the result of a run reports, if it reports one.
pub open spec fn fault_of(res: Result<(), RuntimeError>) -> Option<Fault> {
    match res {
        Ok(_) => None,
        Err(RuntimeError::GenericStr(message)) => Some(fault_named(message@)),
    }
}

/// Each fault has a message of its own.
pub proof fn lemma_fault_messages(fault: Fault)
    ensures
        fault_named(fault_message(fault)) == fault,
{
    reveal_strlit("pointer moved below the first cell");
    reveal_strlit("cell index out of range");
    reveal_strlit("out of fuel");
    assert("pointer moved below the first cell"@.len() == 34);
    assert("cell index out of range"@.len() == 23);
    assert("out of fuel"@.len() == 11);
}

fn underflow() -> (e: RuntimeError)
    ensures
        fault_of(Err(e)) == Some(Fault::Underflow),
{
    proof {
        lemma_fault_messages(Fault::Underflow);
    }
    RuntimeError::GenericStr("pointer moved below the first cell")
}

fn overflow() -> (e: RuntimeError)
    ensures
        fault_of(Err(e)) == Some(Fault::Overflow),
{
    proof {
        lemma_fault_messages(Fault::Overflow);
    }
    RuntimeError::GenericStr("cell index out of range")
}

fn exhausted() -> (e: RuntimeError)
    ensures
        fault_of(Err(e)) == Some(Fault::Exhausted),
{
    proof {
        lemma_fault_messages(Fault::Exhausted);
    }
    RuntimeError::GenericStr("out of fuel")
}

/// The interpreter: a tape, a pointer and a handler.
///
/// `fuel` bounds each run (see [`exec`]); a new interpreter has the most that
/// there is.
pub struct Interpreter<T> {
    /// The tape, as far as it has been touched.
    pub cells: Vec<u8>,
    /// The data pointer.
    pub current_cell_index: usize,
    /// The handler that every exchange goes to.
    pub handler: T,
    /// The fuel that each run gets.
    pub fuel: u64,
    /// Every exchange so far, oldest first.
    pub log: Ghost<Seq<IoEvent>>,
}

impl<T: Handler> View for Interpreter<T> {
    type V = Machine;

    open spec fn view(&self) -> Machine {
        Machine { cells: self.cells@, ptr: self.current_cell_index as nat, log: self.log@ }
    }
}

impl<T: Handler> Interpreter<T> {
    /// A fresh machine around `handler`, with all the fuel there is.
    pub fn new(handler: T) -> (vm: Self)
        ensures
            vm@ == fresh(),
            vm.handler == handler,
            vm.fuel == u64::MAX,
    {
        Self {
            cells: Vec::new(),
            current_cell_index: 0,
            handler,
            fuel: u64::MAX,
            log: Ghost(Seq::empty()),
        }
    }

    /// A fresh machine around `handler` whose runs are bounded by `fuel`.
    pub fn with_fuel(handler: T, fuel: u64) -> (vm: Self)
        ensures
            vm@ == fresh(),
            vm.handler == handler,
            vm.fuel == fuel,
    {
        Self { cells: Vec::new(), current_cell_index: 0, handler, fuel, log: Ghost(Seq::empty()) }
    }

    /// The tape, as far as it has been touched.
    pub fn cells(&self) -> (tape: &[u8])
        ensures
            tape@ == self@.cells,
    {
        self.cells.as_slice()
    }

    /// The data pointer.
    pub fn current_cell_index(&self) -> (index: usize)
        ensures
            index == self@.ptr,
    {
        self.current_cell_index
    }

    /// The cell at `index`, for reading and writing; the tape grows to hold it.
    fn cell(&mut self, index: usize) -> (slot: &mut u8)
        requires
            index < usize::MAX,
        ensures
            *slot == old(self)@.cell(index as nat),
            final(self)@ == old(self)@.stored(index as nat, *final(slot)),
            final(self).handler == old(self).handler,
            final(self).fuel == old(self).fuel,
    {
        if index >= self.cells.len() {
            let ghost before = self.cells@;
            self.cells.resize(index + 1, 0);
            assert(self.cells@ =~= before + zeros((index + 1 - before.len()) as nat));
        }
        &mut self.cells[index]
    }

    /// What the cell under the pointer holds; the tape grows to hold it.
    fn current_cell(&mut self) -> (value: u8)
        requires
            old(self)@.in_range(),
        ensures
            value == old(self)@.cell(old(self)@.ptr),
            final(self)@ == old(self)@.grown(old(self)@.ptr),
            final(self).handler == old(self).handler,
            final(self).fuel == old(self).fuel,
    {
        let index = self.current_cell_index;
        let slot = self.cell(index);
        let value = *slot;
        assert(self@.cells =~= old(self)@.grown(index as nat).cells);
        value
    }

    /// The cell under the pointer, for reading and writing.
    fn current_cell_mut(&mut self) -> (slot: &mut u8)
        requires
            old(self)@.in_range(),
        ensures
            *slot == old(self)@.cell(old(self)@.ptr),
            final(self)@ == old(self)@.stored(old(self)@.ptr, *final(slot)),
            final(self).handler == old(self).handler,
            final(self).fuel == old(self).fuel,
    {
        let index = self.current_cell_index;
        self.cell(index)
    }

    /// Runs `expr` on this machine.
    ///
    /// The machine ends where [`exec`](crate::machine::exec) says, on every
    /// input stream that holds the bytes which the handler gave. The result is
    /// `Ok` iff no fault stopped the run, and the error names the fault.
    pub fn run(&mut self, expr: &Expr) -> (res: Result<(), RuntimeError>)
        ensures
            explains(
                expr@,
                old(self)@,
                Outcome { machine: final(self)@, fault: fault_of(res) },
                old(self).fuel as nat,
            ),
            went(*old(self), *final(self)),
    {
        let fuel = self.fuel;
        self.run_within(expr, fuel)
    }

    /// Runs `expr` within `fuel`.
    fn run_within(&mut self, expr: &Expr, fuel: u64) -> (res: Result<(), RuntimeError>)
        ensures
            explains(
                expr@,
                old(self)@,
                Outcome { machine: final(self)@, fault: fault_of(res) },
                fuel as nat,
            ),
            went(*old(self), *final(self)),
        decreases fuel, expr,
    {
        let ghost start = *self;
        proof {
            lemma_went_still(start, start);
        }
        match expr {
            Expr::Block { exprs } => {
                proof {
                    lemma_block_view(*exprs);
                }
                self.run_block(exprs, fuel)
            },
            Expr::Increment { num } => {
                if self.current_cell_index == usize::MAX {
                    return Err(overflow());
                }
                let value = self.current_cell();
                let slot = self.current_cell_mut();
                *slot = ((value as usize + *num % 256) % 256) as u8;
                proof {
                    let sum = ((start@.cell(start@.ptr) + *num) % 256) as u8;
                    assert(self@.cells =~= start@.stored(start@.ptr, sum).cells);
                    lemma_went_still(start, *self);
                }
                Ok(())
            },
            Expr::Decrement { num } => {
                if self.current_cell_index == usize::MAX {
                    return Err(overflow());
                }
                let value = self.current_cell();
                let slot = self.current_cell_mut();
                *slot = ((value as usize + 256 - *num % 256) % 256) as u8;
                proof {
                    let rest = ((start@.cell(start@.ptr) - *num) % 256) as u8;
                    assert(self@.cells =~= start@.stored(start@.ptr, rest).cells);
                    lemma_went_still(start, *self);
                }
                Ok(())
            },
            Expr::ShiftRight { num } => {
                if *num > usize::MAX - self.current_cell_index {
                    return Err(overflow());
                }
                self.current_cell_index += *num;
                proof {
                    lemma_went_still(start, *self);
                }
                Ok(())
            },
            Expr::ShiftLeft { num } => {
                if *num > self.current_cell_index {
                    return Err(underflow());
                }
                self.current_cell_index -= *num;
                proof {
                    lemma_went_still(start, *self);
                }
                Ok(())
            },
            Expr::Loop { expr: inner } => self.run_loop(inner, fuel),
            Expr::PrintChar => {
                if self.current_cell_index == usize::MAX {
                    return Err(overflow());
                }
                self.probe();
                let ghost probed = *self;
                let value = self.current_cell();
                let ghost looked = *self;
                self.emit(value);
                proof {
                    lemma_went_still(probed, looked);
                    lemma_went_on(start, probed, looked);
                    lemma_went_on(start, looked, *self);
                }
                Ok(())
            },
            Expr::ReadChar => {
                if self.current_cell_index == usize::MAX {
                    return Err(overflow());
                }
                let value = self.take_byte();
                let ghost read = *self;
                let slot = self.current_cell_mut();
                *slot = value;
                proof {
                    lemma_went_still(read, *self);
                    lemma_went_on(start, read, *self);
                    assert forall|input: Seq<u8>| #[trigger] feeds(input, self@.log) implies exec(
                        expr@,
                        start@,
                        input,
                        fuel as nat,
                    ) == done(self@) by {
                        lemma_read_fed(input, start@.log, value);
                    }
                }
                Ok(())
            },
            Expr::Assign { index, value } => {
                if *index == usize::MAX {
                    return Err(overflow());
                }
                let slot = self.cell(*index);
                *slot = *value;
                proof {
                    lemma_went_still(start, *self);
                }
                Ok(())
            },
            Expr::AssignCurrent { value } => {
                if self.current_cell_index == usize::MAX {
                    return Err(overflow());
                }
                let slot = self.current_cell_mut();
                *slot = *value;
                proof {
                    lemma_went_still(start, *self);
                }
                Ok(())
            },
            Expr::PrintString { value } => {
                self.emit_all(value);
                Ok(())
            },
            Expr::SetCellPointer { value } => {
                self.current_cell_index = *value;
                proof {
                    lemma_went_still(start, *self);
                }
                Ok(())
            },
            Expr::ReadCharForget => {
                let value = self.take_byte();
                proof {
                    assert forall|input: Seq<u8>| #[trigger] feeds(input, self@.log) implies exec(
                        expr@,
                        start@,
                        input,
                        fuel as nat,
                    ) == done(self@) by {
                        lemma_read_fed(input, start@.log, value);
                    }
                }
                Ok(())
            },
        }
    }

    /// Runs the children of a block in order, up to the first fault.
    #[verifier::loop_isolation(false)]
    fn run_block(&mut self, exprs: &Vec<Expr>, fuel: u64) -> (res: Result<(), RuntimeError>)
        ensures
            explains_seq(
                irs_of(exprs@),
                old(self)@,
                Outcome { machine: final(self)@, fault: fault_of(res) },
                fuel as nat,
            ),
            went(*old(self), *final(self)),
        decreases fuel, exprs,
    {
        let ghost start = *self;
        let ghost body = irs_of(exprs@);
        proof {
            lemma_went_still(start, start);
        }
        let mut i: usize = 0;
        while i < exprs.len()
            invariant
                i <= exprs.len(),
                body == irs_of(exprs@),
                explains_seq(body.take(i as int), start@, done(self@), fuel as nat),
                went(start, *self),
            decreases exprs.len() - i,
        {
            let ghost mid = *self;
            let res = self.run_within(&exprs[i], fuel);
            let ghost after = Outcome { machine: self@, fault: fault_of(res) };
            proof {
                lemma_went_on(start, mid, *self);
                lemma_seq_step(body, i as int, start@, mid@, after, fuel as nat);
            }
            if let Err(e) = res {
                proof {
                    lemma_seq_fault(body, i + 1, start@, after, fuel as nat);
                }
                return Err(e);
            }
            i += 1;
        }
        proof {
            assert(body.take(i as int) =~= body);
        }
        Ok(())
    }

    /// Runs a loop over `inner`: one round after the other, while the cell
    /// under the pointer is not zero.
    #[verifier::loop_isolation(false)]
    fn run_loop(&mut self, inner: &Expr, fuel: u64) -> (res: Result<(), RuntimeError>)
        ensures
            explains_loop(
                inner@,
                old(self)@,
                Outcome { machine: final(self)@, fault: fault_of(res) },
                fuel as nat,
            ),
            went(*old(self), *final(self)),
        decreases fuel, inner,
    {
        let ghost start = *self;
        let ghost body = inner@;
        proof {
            lemma_went_still(start, start);
        }
        let mut left = fuel;
        loop
            invariant
                left <= fuel,
                body == inner@,
                went(start, *self),
                continues(body, start@, fuel as nat, self@, left as nat),
            decreases left,
        {
            let ghost top = *self;
            proof {
                lemma_loop_end(body, start@, fuel as nat, top@, left as nat);
            }
            if self.current_cell_index == usize::MAX {
                return Err(overflow());
            }
            self.probe();
            let ghost probed = *self;
            let value = self.current_cell();
            proof {
                lemma_went_still(probed, *self);
                lemma_went_on(top, probed, *self);
                lemma_went_on(start, top, *self);
            }
            if value == 0 {
                return Ok(());
            }
            if left == 0 {
                return Err(exhausted());
            }
            left -= 1;
            let ghost looked = *self;
            let res = self.run_within(inner, left);
            let ghost after = Outcome { machine: self@, fault: fault_of(res) };
            proof {
                lemma_went_on(start, looked, *self);
                lemma_loop_round(body, start@, fuel as nat, top@, left as nat + 1, after);
            }
            if let Err(e) = res {
                return Err(e);
            }
        }
    }

    /// Hands the bytes of `value` to the handler, in order.
    #[verifier::loop_isolation(false)]
    fn emit_all(&mut self, value: &Vec<u8>)
        ensures
            final(self)@ == print_all(old(self)@, value@),
            went(*old(self), *final(self)),
    {
        let ghost start = *self;
        proof {
            lemma_went_still(start, start);
        }
        let mut i: usize = 0;
        while i < value.len()
            invariant
                i <= value.len(),
                self@ == print_all(start@, value@.take(i as int)),
                went(start, *self),
            decreases value.len() - i,
        {
            let ghost mid = *self;
            self.emit(value[i]);
            proof {
                lemma_went_on(start, mid, *self);
                assert(value@.take(i + 1).drop_last() =~= value@.take(i as int));
            }
            i += 1;
        }
        proof {
            assert(value@.take(i as int) =~= value@);
        }
    }

    /// Hands `c` to the handler and logs it.
    fn emit(&mut self, c: u8)
        ensures
            final(self)@ == old(self)@.logged(IoEvent::Write(c)),
            went(*old(self), *final(self)),
    {
        let ghost before = *self;
        self.handler.write_char(c);
        self.log = Ghost(self.log@.push(IoEvent::Write(c)));
        proof {
            lemma_went_still(before, before);
            lemma_went_step(before, before, *self, IoEvent::Write(c));
        }
    }

    /// Tells the handler that the cell under the pointer is about to be
    /// looked at, and logs it.
    fn probe(&mut self)
        ensures
            final(self)@ == old(self)@.logged(IoEvent::Probe(old(self)@.ptr)),
            went(*old(self), *final(self)),
    {
        let ghost before = *self;
        self.handler.mem_read(self.current_cell_index);
        self.log = Ghost(self.log@.push(IoEvent::Probe(self.current_cell_index as nat)));
        proof {
            lemma_went_still(before, before);
            lemma_went_step(before, before, *self, IoEvent::Probe(before@.ptr));
        }
    }

    /// Asks the handler for a byte and logs it.
    fn take_byte(&mut self) -> (c: u8)
        ensures
            final(self)@ == old(self)@.logged(IoEvent::Read(c)),
            went(*old(self), *final(self)),
    {
        let ghost before = *self;
        let c = self.handler.read_char();
        self.log = Ghost(self.log@.push(IoEvent::Read(c)));
        proof {
            lemma_went_still(before, before);
            lemma_went_step(before, before, *self, IoEvent::Read(c));
        }
        c
    }
}

/// True iff `after` can be `before` some exchanges later: its log is
/// `before`'s log gone on, its handler went through just those further
/// exchanges, and the fuel is the same.
pub open spec fn went<T: Handler>(before: Interpreter<T>, after: Interpreter<T>) -> bool {
    &&& extends(before@.log, after@.log)
    &&& replay(before.handler, after@.log.skip(before@.log.len() as int), after.handler)
    &&& after.fuel == before.fuel
}

/// One more exchange after `mid`.
pub proof fn lemma_went_step<T: Handler>(
    before: Interpreter<T>,
    mid: Interpreter<T>,
    after: Interpreter<T>,
    event: IoEvent,
)
    requires
        went(before, mid),
        after@.log == mid@.log.push(event),
        mid.handler.evolves(event, &after.handler),
        after.fuel == mid.fuel,
    ensures
        went(before, after),
{
    let n = before@.log.len() as int;
    assert(after@.log.take(n) =~= mid@.log.take(n));
    assert(after@.log.skip(n) =~= mid@.log.skip(n).push(event));
    lemma_replay_push(before.handler, mid@.log.skip(n), mid.handler, event, after.handler);
}

/// No exchange at all.
pub proof fn lemma_went_still<T: Handler>(before: Interpreter<T>, after: Interpreter<T>)
    requires
        after@.log == before@.log,
        after.handler == before.handler,
        after.fuel == before.fuel,
    ensures
        went(before, after),
{
    let n = before@.log.len() as int;
    assert(after@.log.take(n) =~= before@.log);
    assert(after@.log.skip(n) =~= Seq::<IoEvent>::empty());
}

/// First to `mid`, then on to `after`.
pub proof fn lemma_went_on<T: Handler>(
    before: Interpreter<T>,
    mid: Interpreter<T>,
    after: Interpreter<T>,
)
    requires
        went(before, mid),
        went(mid, after),
    ensures
        went(before, after),
{
    let n = before@.log.len() as int;
    let k = mid@.log.len() as int;
    assert(after@.log.take(n) =~= after@.log.take(k).take(n));
    assert(after@.log.skip(n) =~= mid@.log.skip(n) + after@.log.skip(k)) by {
        assert(mid@.log =~= after@.log.take(k));
    }
    lemma_replay_concat(
        before.handler,
        mid@.log.skip(n),
        mid.handler,
        after@.log.skip(k),
        after.handler,
    );
}

} // verus!
