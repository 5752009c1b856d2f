//! What holds of the library as a whole, proved from the contracts and the
//! definitions that they use.

use crate::ir::Ir;
use crate::lexer::{
    canonical, continues_run, is_command, repeated, spelling, text, well_formed, Token, TokenData,
};
use crate::machine::{done, exec, exec_seq, fresh, output, reads, taken, Fault, Machine};
use crate::optimize::{
    clears_cell, lemma_zero_looped_block, settled, speculated, zero_looped, zero_looped_all,
    RegisteredPass,
};
use crate::pipeline::{keeps, lemma_settled, standard, tame};
use crate::parser::{lemma_parse_advances, parse_from};
use crate::soundness::lemma_zero_loop_sound;
use crate::speculation::{lemma_speculation_sound, reads_plainly};
use vstd::prelude::*;

verus! {

/// `k` times the instruction `ir`.
pub open spec fn times(ir: Ir, k: nat) -> Seq<Ir> {
    Seq::new(k, |i: int| ir)
}

/// One increment by `k` leaves the cell at `(v + k) mod 256`, where `v` is
/// what it held, and changes nothing else but the length of the tape.
pub proof fn law_increment_wraps(m: Machine, k: nat, input: Seq<u8>, fuel: nat)
    requires
        m.in_range(),
    ensures
        exec(Ir::Increment { num: k }, m, input, fuel) == done(
            m.stored(m.ptr, ((m.cell(m.ptr) + k) % 256) as u8),
        ),
        exec(Ir::Increment { num: k }, m, input, fuel).machine.cell(m.ptr) == (m.cell(m.ptr) + k)
            % 256,
{
}

/// `k` increments by one leave the cell at `(v + k) mod 256`, where `v` is
/// what it held: counting up wraps around at 256.
pub proof fn law_increments_add_up(m: Machine, k: nat, input: Seq<u8>, fuel: nat)
    requires
        m.in_range(),
    ensures
        exec_seq(times(Ir::Increment { num: 1 }, k), m, input, fuel).fault is None,
        exec_seq(times(Ir::Increment { num: 1 }, k), m, input, fuel).machine.cell(m.ptr) == (
        m.cell(m.ptr) + k) % 256,
        exec_seq(times(Ir::Increment { num: 1 }, k), m, input, fuel).machine.ptr == m.ptr,
        exec_seq(times(Ir::Increment { num: 1 }, k), m, input, fuel).machine.log == m.log,
    decreases k,
{
    let one = Ir::Increment { num: 1 };
    if k > 0 {
        law_increments_add_up(m, (k - 1) as nat, input, fuel);
        assert(times(one, k).drop_last() =~= times(one, (k - 1) as nat));
        assert(times(one, k).last() == one);
        let before = exec_seq(times(one, (k - 1) as nat), m, input, fuel);
        law_increment_wraps(before.machine, 1, input, fuel);
    }
}

/// The single step of a run: the same instruction with the count one.
pub open spec fn single(ir: Ir) -> Ir {
    match ir {
        Ir::Increment { .. } => Ir::Increment { num: 1 },
        Ir::Decrement { .. } => Ir::Decrement { num: 1 },
        Ir::ShiftLeft { .. } => Ir::ShiftLeft { num: 1 },
        Ir::ShiftRight { .. } => Ir::ShiftRight { num: 1 },
        _ => ir,
    }
}

/// The count of a run.
pub open spec fn count(ir: Ir) -> nat {
    match ir {
        Ir::Increment { num } => num,
        Ir::Decrement { num } => num,
        Ir::ShiftLeft { num } => num,
        Ir::ShiftRight { num } => num,
        _ => 1,
    }
}

/// What `k` increments by one do.
pub proof fn lemma_up(k: nat, m: Machine, input: Seq<u8>, fuel: nat)
    requires
        k >= 1,
        m.in_range(),
    ensures
        exec_seq(times(Ir::Increment { num: 1 }, k), m, input, fuel) == done(
            m.stored(m.ptr, ((m.cell(m.ptr) + k) % 256) as u8),
        ),
    decreases k,
{
    let one = Ir::Increment { num: 1 };
    assert(times(one, k).drop_last() =~= times(one, (k - 1) as nat));
    assert(times(one, k).last() == one);
    if k == 1 {
        assert(times(one, 0) =~= Seq::<Ir>::empty());
        assert(exec_seq(times(one, 0), m, input, fuel) == done(m));
        assert(exec(one, m, input, fuel) == done(
            m.stored(m.ptr, ((m.cell(m.ptr) + 1) % 256) as u8),
        ));
    } else {
        lemma_up((k - 1) as nat, m, input, fuel);
        let before = m.stored(m.ptr, ((m.cell(m.ptr) + k - 1) % 256) as u8);
        assert(exec_seq(times(one, (k - 1) as nat), m, input, fuel) == done(before));
        let after = before.stored(m.ptr, ((before.cell(m.ptr) + 1) % 256) as u8);
        assert(exec(one, before, input, fuel) == done(after));
        assert(after.cells =~= m.stored(m.ptr, ((m.cell(m.ptr) + k) % 256) as u8).cells);
        assert(after == m.stored(m.ptr, ((m.cell(m.ptr) + k) % 256) as u8));
    }
}

/// What `k` decrements by one do.
pub proof fn lemma_down(k: nat, m: Machine, input: Seq<u8>, fuel: nat)
    requires
        k >= 1,
        m.in_range(),
    ensures
        exec_seq(times(Ir::Decrement { num: 1 }, k), m, input, fuel) == done(
            m.stored(m.ptr, ((m.cell(m.ptr) - k) % 256) as u8),
        ),
    decreases k,
{
    let one = Ir::Decrement { num: 1 };
    assert(times(one, k).drop_last() =~= times(one, (k - 1) as nat));
    assert(times(one, k).last() == one);
    if k == 1 {
        assert(times(one, 0) =~= Seq::<Ir>::empty());
        assert(exec_seq(times(one, 0), m, input, fuel) == done(m));
        assert(exec(one, m, input, fuel) == done(
            m.stored(m.ptr, ((m.cell(m.ptr) - 1) % 256) as u8),
        ));
    } else {
        lemma_down((k - 1) as nat, m, input, fuel);
        let before = m.stored(m.ptr, ((m.cell(m.ptr) - (k - 1)) % 256) as u8);
        assert(exec_seq(times(one, (k - 1) as nat), m, input, fuel) == done(before));
        let after = before.stored(m.ptr, ((before.cell(m.ptr) - 1) % 256) as u8);
        assert(exec(one, before, input, fuel) == done(after));
        assert(after.cells =~= m.stored(m.ptr, ((m.cell(m.ptr) - k) % 256) as u8).cells);
        assert(after == m.stored(m.ptr, ((m.cell(m.ptr) - k) % 256) as u8));
    }
}

/// What `k` moves by one do, to the right or to the left, where the pointer
/// stays on the tape.
pub proof fn lemma_moves(right: bool, k: nat, m: Machine, input: Seq<u8>, fuel: nat)
    requires
        right ==> m.ptr + k <= usize::MAX,
        !right ==> k <= m.ptr,
    ensures
        right ==> exec_seq(times(Ir::ShiftRight { num: 1 }, k), m, input, fuel) == done(
            m.moved(m.ptr + k),
        ),
        !right ==> exec_seq(times(Ir::ShiftLeft { num: 1 }, k), m, input, fuel) == done(
            m.moved((m.ptr - k) as nat),
        ),
    decreases k,
{
    let one = if right {
        Ir::ShiftRight { num: 1 }
    } else {
        Ir::ShiftLeft { num: 1 }
    };
    if k == 0 {
        assert(m.moved(m.ptr) == m);
    } else {
        assert(times(one, k).drop_last() =~= times(one, (k - 1) as nat));
        assert(times(one, k).last() == one);
        lemma_moves(right, (k - 1) as nat, m, input, fuel);
        if right {
            let before = m.moved((m.ptr + k - 1) as nat);
            assert(exec(one, before, input, fuel) == done(before.moved(before.ptr + 1)));
        } else {
            let before = m.moved((m.ptr - (k - 1)) as nat);
            assert(exec(one, before, input, fuel) == done(before.moved((before.ptr - 1) as nat)));
        }
    }
}

/// Counting a run as one instruction or as its single steps comes to the
/// same. For a run of `+`, `-`, `<` or `>` with a count of at least one that
/// does not fault, the instruction with the count leaves the machine just
/// where as many instructions with the count one leave it.
pub proof fn law_run_is_its_steps(ir: Ir, m: Machine, input: Seq<u8>, fuel: nat)
    requires
        ir is Increment || ir is Decrement || ir is ShiftLeft || ir is ShiftRight,
        count(ir) >= 1,
        exec(ir, m, input, fuel).fault is None,
    ensures
        exec_seq(times(single(ir), count(ir)), m, input, fuel) == exec(ir, m, input, fuel),
{
    match ir {
        Ir::Increment { num } => {
            lemma_up(num, m, input, fuel);
        },
        Ir::Decrement { num } => {
            lemma_down(num, m, input, fuel);
        },
        Ir::ShiftRight { num } => {
            lemma_moves(true, num, m, input, fuel);
        },
        _ => {
            lemma_moves(false, count(ir), m, input, fuel);
        },
    }
}

/// True iff a loop that clears its cell stands anywhere in the tree.
pub open spec fn mentions_clear(ir: Ir) -> bool
    decreases ir,
{
    clears_cell(ir) || match ir {
        Ir::Block { body } => exists|i: int| 0 <= i < body.len() && mentions_clear(#[trigger] body[i]),
        Ir::Loop { inner } => mentions_clear(*inner),
        _ => false,
    }
}

/// What `mentions_clear` says of a block, stated over the list of its
/// children.
pub proof fn lemma_mentions_clear_block(body: Seq<Ir>)
    ensures
        mentions_clear(Ir::Block { body }) == (exists|i: int|
            0 <= i < body.len() && mentions_clear(#[trigger] body[i])),
{
    let b = Ir::Block { body };
    assert(b->body == body);
    assert(mentions_clear(b) == (clears_cell(b) || (exists|i: int|
        0 <= i < b->body.len() && mentions_clear(#[trigger] b->body[i]))));
}

/// The zero-loop pass changes nothing in a tree that holds no loop which
/// clears its cell.
pub proof fn law_zero_loop_no_op(ir: Ir)
    requires
        !mentions_clear(ir),
    ensures
        zero_looped(ir) == ir,
    decreases ir,
{
    match ir {
        Ir::Block { body } => {
            lemma_mentions_clear_block(body);
            lemma_zero_looped_block(body);
            assert forall|i: int| 0 <= i < body.len() implies zero_looped(body[i]) == body[i] by {
                assert(!mentions_clear(body[i]));
                law_zero_loop_no_op(body[i]);
            }
            assert(zero_looped_all(body) =~= body);
        },
        _ => {},
    }
}

/// The commands that a tree stands for: a run for each count, brackets
/// around the body of a loop, and nothing for what the parser does not give.
pub open spec fn unparse(ir: Ir) -> Seq<char>
    decreases ir,
{
    match ir {
        Ir::Block { body } => unparse_all(body),
        Ir::Loop { inner } => seq!['['] + unparse(*inner) + seq![']'],
        Ir::Increment { num } => repeated('+', num),
        Ir::Decrement { num } => repeated('-', num),
        Ir::ShiftLeft { num } => repeated('<', num),
        Ir::ShiftRight { num } => repeated('>', num),
        Ir::PrintChar => seq!['.'],
        Ir::ReadChar => seq![','],
        _ => Seq::empty(),
    }
}

/// The commands that a list of trees stands for, in order.
pub open spec fn unparse_all(body: Seq<Ir>) -> Seq<char>
    decreases body,
{
    if body.len() == 0 {
        Seq::empty()
    } else {
        unparse(body[0]) + unparse_all(body.drop_first())
    }
}

/// The commands that a token stands for: its spelling, or nothing for a run
/// of other characters.
pub open spec fn commands_of(data: TokenData) -> Seq<char> {
    match data {
        TokenData::Other(_) => Seq::empty(),
        _ => spelling(data),
    }
}

/// The commands of the tokens from the one at `i` up to the one at `j`.
pub open spec fn commands_between(tokens: Seq<Token>, i: nat, j: nat) -> Seq<char>
    decreases j - i,
{
    if i >= j || i >= tokens.len() {
        Seq::empty()
    } else {
        commands_of(tokens[i as int].data) + commands_between(tokens, i + 1, j)
    }
}

/// True iff the brackets from the token at `i` on are well nested, with
/// `depth` loops open there: no loop ends that was not begun, and at the end
/// none is open.
pub open spec fn balanced_from(tokens: Seq<Token>, i: nat, depth: nat) -> bool
    decreases tokens.len() - i,
{
    if i >= tokens.len() {
        depth == 0
    } else {
        match tokens[i as int].data {
            TokenData::StartLoop => balanced_from(tokens, i + 1, depth + 1),
            TokenData::EndLoop => depth > 0 && balanced_from(tokens, i + 1, (depth - 1) as nat),
            _ => balanced_from(tokens, i + 1, depth),
        }
    }
}

/// The commands of a stretch of tokens are those of its two parts.
pub proof fn lemma_commands_split(tokens: Seq<Token>, i: nat, j: nat, k: nat)
    requires
        i <= j <= k <= tokens.len(),
    ensures
        commands_between(tokens, i, k) == commands_between(tokens, i, j) + commands_between(
            tokens,
            j,
            k,
        ),
    decreases j - i,
{
    if i < j {
        lemma_commands_split(tokens, i + 1, j, k);
        assert(commands_between(tokens, i, k) =~= commands_between(tokens, i, j)
            + commands_between(tokens, j, k));
    } else {
        assert(commands_between(tokens, i, k) =~= commands_between(tokens, i, j)
            + commands_between(tokens, j, k));
    }
}

/// What the commands of a list of trees are when one tree stands first.
pub proof fn lemma_unparse_first(first: Ir, rest: Seq<Ir>)
    ensures
        unparse_all(seq![first] + rest) == unparse(first) + unparse_all(rest),
{
    let all = seq![first] + rest;
    assert(all[0] == first);
    assert(all.drop_first() =~= rest);
}

/// Where the brackets are well nested, a parsed block gives back the
/// commands that it was parsed from: up to the bracket that ends it where a
/// loop is open, and up to the end of the tokens where none is.
pub proof fn lemma_parse_gives_commands(tokens: Seq<Token>, i: nat, depth: nat)
    requires
        i <= tokens.len(),
        balanced_from(tokens, i, depth),
    ensures
        ({
            let p = parse_from(tokens, i, depth);
            &&& i <= p.next <= tokens.len()
            &&& depth == 0 ==> p.next == tokens.len() && p.depth == 0 && unparse_all(p.body)
                == commands_between(tokens, i, p.next)
            &&& depth > 0 ==> i < p.next && p.depth == depth - 1 && balanced_from(
                tokens,
                p.next,
                (depth - 1) as nat,
            ) && unparse_all(p.body) + seq![']'] == commands_between(tokens, i, p.next)
        }),
    decreases tokens.len() - i,
{
    let p = parse_from(tokens, i, depth);
    lemma_parse_advances(tokens, i, depth);
    if i < tokens.len() {
        match tokens[i as int].data {
            TokenData::StartLoop => {
                let inner = parse_from(tokens, i + 1, depth + 1);
                lemma_parse_gives_commands(tokens, i + 1, depth + 1);
                lemma_parse_advances(tokens, i + 1, depth + 1);
                let rest = parse_from(tokens, inner.next, inner.depth);
                lemma_parse_gives_commands(tokens, inner.next, inner.depth);
                let l = Ir::Loop { inner: Box::new(Ir::Block { body: inner.body }) };
                lemma_unparse_first(l, rest.body);
                lemma_commands_split(tokens, i + 1, inner.next, p.next);
                assert(commands_between(tokens, i, p.next) == seq!['['] + commands_between(
                    tokens,
                    i + 1,
                    p.next,
                ));
                assert(unparse(Ir::Block { body: inner.body }) == unparse_all(inner.body));
                assert(unparse(l) =~= seq!['['] + unparse_all(inner.body) + seq![']']);
                if depth == 0 {
                    assert(unparse_all(p.body) =~= commands_between(tokens, i, p.next));
                } else {
                    assert(unparse_all(p.body) + seq![']'] =~= commands_between(
                        tokens,
                        i,
                        p.next,
                    ));
                }
            },
            TokenData::EndLoop => {
                assert(commands_between(tokens, i + 1, i + 1) =~= Seq::<char>::empty());
                assert(unparse_all(p.body) + seq![']'] =~= commands_between(tokens, i, p.next));
            },
            TokenData::Other(_) => {
                lemma_parse_gives_commands(tokens, i + 1, depth);
                assert(commands_between(tokens, i, p.next) =~= commands_between(
                    tokens,
                    i + 1,
                    p.next,
                ));
            },
            _ => {
                let rest = parse_from(tokens, i + 1, depth);
                lemma_parse_gives_commands(tokens, i + 1, depth);
                lemma_unparse_first(p.body[0], rest.body);
                assert(p.body =~= seq![p.body[0]] + rest.body);
                assert(unparse(p.body[0]) == commands_of(tokens[i as int].data));
                if depth == 0 {
                    assert(unparse_all(p.body) =~= commands_between(tokens, i, p.next));
                } else {
                    assert(unparse_all(p.body) + seq![']'] =~= commands_between(
                        tokens,
                        i,
                        p.next,
                    ));
                }
            },
        }
    }
}

/// Parsing and then flattening gives the commands back: where the brackets
/// of the tokens are well nested, the tree that the parser builds stands for
/// just the commands of the tokens, in order.
pub proof fn law_parse_round_trip(tokens: Seq<Token>)
    requires
        balanced_from(tokens, 0, 0),
    ensures
        unparse(Ir::Block { body: parse_from(tokens, 0, 0).body }) == commands_between(
            tokens,
            0,
            tokens.len(),
        ),
{
    lemma_parse_gives_commands(tokens, 0, 0);
}

/// The commands of a text: the text without the characters that are no
/// commands.
pub open spec fn only_commands(s: Seq<char>) -> Seq<char>
    decreases s.len(),
{
    if s.len() == 0 {
        Seq::empty()
    } else if is_command(s.last()) {
        only_commands(s.drop_last()).push(s.last())
    } else {
        only_commands(s.drop_last())
    }
}

/// The commands of two texts, one after the other.
pub proof fn lemma_only_commands_add(a: Seq<char>, b: Seq<char>)
    ensures
        only_commands(a + b) == only_commands(a) + only_commands(b),
    decreases b.len(),
{
    if b.len() == 0 {
        assert(a + b =~= a);
        assert(only_commands(a) + only_commands(b) =~= only_commands(a));
    } else {
        lemma_only_commands_add(a, b.drop_last());
        assert((a + b).drop_last() =~= a + b.drop_last());
        assert((a + b).last() == b.last());
        assert(only_commands(a + b) =~= only_commands(a) + only_commands(b));
    }
}

/// A text of commands only is its own commands, and a text without commands
/// has none.
pub proof fn lemma_only_commands_uniform(s: Seq<char>)
    ensures
        (forall|i: int| 0 <= i < s.len() ==> is_command(#[trigger] s[i])) ==> only_commands(s)
            == s,
        (forall|i: int| 0 <= i < s.len() ==> !is_command(#[trigger] s[i])) ==> only_commands(s)
            == Seq::<char>::empty(),
    decreases s.len(),
{
    if s.len() > 0 {
        lemma_only_commands_uniform(s.drop_last());
        if forall|i: int| 0 <= i < s.len() ==> is_command(#[trigger] s[i]) {
            assert forall|i: int| 0 <= i < s.drop_last().len() implies is_command(
                #[trigger] s.drop_last()[i],
            ) by {
                assert(s.drop_last()[i] == s[i]);
            }
            assert(is_command(s[s.len() - 1]));
            assert(only_commands(s) =~= s);
        }
        if forall|i: int| 0 <= i < s.len() ==> !is_command(#[trigger] s[i]) {
            assert forall|i: int| 0 <= i < s.drop_last().len() implies !is_command(
                #[trigger] s.drop_last()[i],
            ) by {
                assert(s.drop_last()[i] == s[i]);
            }
            assert(!is_command(s[s.len() - 1]));
        }
    }
}

/// The commands of the tokens of a text are the commands of the text.
pub proof fn lemma_commands_of_text(tokens: Seq<Token>)
    requires
        forall|i: int| 0 <= i < tokens.len() ==> well_formed(#[trigger] tokens[i].data),
    ensures
        commands_between(tokens, 0, tokens.len()) == only_commands(text(tokens)),
    decreases tokens.len(),
{
    if tokens.len() == 0 {
    } else {
        let front = tokens.drop_last();
        let n = front.len();
        assert forall|i: int| 0 <= i < front.len() implies well_formed(#[trigger] front[i].data) by {
            assert(front[i] == tokens[i]);
        }
        lemma_commands_of_text(front);
        lemma_commands_same(tokens, front, 0, n);
        lemma_commands_split(tokens, 0, n, tokens.len());
        let last = tokens.last().data;
        assert(commands_between(tokens, n + 1, tokens.len()) =~= Seq::<char>::empty());
        assert(commands_between(tokens, n, tokens.len()) =~= commands_of(last));
        lemma_only_commands_add(text(front), spelling(last));
        lemma_only_commands_uniform(spelling(last));
        assert(well_formed(tokens[n as int].data));
        assert(only_commands(spelling(last)) == commands_of(last));
    }
}

/// The commands of a stretch of tokens depend on that stretch only.
pub proof fn lemma_commands_same(a: Seq<Token>, b: Seq<Token>, i: nat, j: nat)
    requires
        j <= a.len(),
        j <= b.len(),
        forall|k: int| i <= k < j ==> a[k] == b[k],
    ensures
        commands_between(a, i, j) == commands_between(b, i, j),
    decreases j - i,
{
    if i < j {
        lemma_commands_same(a, b, i + 1, j);
    }
}

/// Lexing, parsing and flattening gives the commands of the source back:
/// where `tokens` are the tokens of `source` and its brackets are well
/// nested, the tree that the parser builds stands for `source` without the
/// characters that are no commands.
pub proof fn law_source_round_trip(source: Seq<char>, tokens: Seq<Token>)
    requires
        text(tokens) == source,
        canonical(tokens),
        balanced_from(tokens, 0, 0),
    ensures
        unparse(Ir::Block { body: parse_from(tokens, 0, 0).body }) == only_commands(source),
{
    law_parse_round_trip(tokens);
    lemma_commands_of_text(tokens);
}

/// The zero-loop pass keeps what a tree does. On every machine, input
/// stream and fuel: unless the fuel runs out on the tree as it was, the
/// rewritten tree ends with the same fault, on the same tape and pointer,
/// with the same output and the same bytes read.
pub proof fn law_zero_loop_keeps_behaviour(ir: Ir, m: Machine, input: Seq<u8>, fuel: nat)
    ensures
        ({
            let a = exec(ir, m, input, fuel);
            let b = exec(zero_looped(ir), m, input, fuel);
            a.fault != Some(Fault::Exhausted) ==> {
                &&& a.fault == b.fault
                &&& a.machine.cells == b.machine.cells
                &&& a.machine.ptr == b.machine.ptr
                &&& output(a.machine.log) == output(b.machine.log)
                &&& reads(a.machine.log) == reads(b.machine.log)
            }
        }),
{
    lemma_zero_loop_sound(ir, m, m, input, fuel);
}

/// The speculative-execution pass keeps what a program writes and how much
/// it reads. For a block in which each child that the speculative run goes
/// through reads plainly if it reads, on a fresh machine with the fuel of
/// the pass and on every input stream: the block as it was and the block as
/// rewritten end with the same fault, the same output, and as many bytes
/// read.
pub proof fn law_speculation_keeps_behaviour(body: Seq<Ir>, input: Seq<u8>, fuel: nat)
    requires
        reads_plainly(body),
    ensures
        ({
            let a = exec(Ir::Block { body }, fresh(), input, fuel);
            let b = exec(speculated(Ir::Block { body }, fuel), fresh(), input, fuel);
            &&& a.fault == b.fault
            &&& output(a.machine.log) == output(b.machine.log)
            &&& taken(a.machine.log) == taken(b.machine.log)
        }),
{
    lemma_speculation_sound(body, input, fuel);
}

/// Optimizing keeps what a program does. For the two passes of the library
/// in their order, and a block whose children are tame: the tree that the
/// optimizer ends with does, on a fresh machine with all the fuel there is
/// and on every input stream, what the block did. Unless the fuel runs out
/// on the block as it was, the two end with the same fault, the same
/// output, and as many bytes read.
pub proof fn law_optimizing_keeps_behaviour(
    passes: Seq<RegisteredPass>,
    ir: Ir,
    input: Seq<u8>,
)
    requires
        standard(passes),
        ir is Block,
        tame(ir->body),
    ensures
        keeps(ir, settled(passes, ir, 3), input),
{
    lemma_settled(passes, ir->body, 3, input);
}

/// Optimizing keeps the count of reads. Under the conditions of
/// [`law_optimizing_keeps_behaviour`], and unless the fuel runs out on the
/// block as it was, the optimized tree takes as many bytes from every input
/// stream as the block did.
pub proof fn law_optimizing_keeps_reads(passes: Seq<RegisteredPass>, ir: Ir, input: Seq<u8>)
    requires
        standard(passes),
        ir is Block,
        tame(ir->body),
        exec(ir, fresh(), input, u64::MAX as nat).fault != Some(Fault::Exhausted),
    ensures
        taken(exec(settled(passes, ir, 3), fresh(), input, u64::MAX as nat).machine.log) == taken(
            exec(ir, fresh(), input, u64::MAX as nat).machine.log,
        ),
{
    lemma_settled(passes, ir->body, 3, input);
}

/// True iff the character `c` can stand in the spelling of the token.
pub open spec fn fits(data: TokenData, c: char) -> bool {
    match data {
        TokenData::ShiftLeft(_) => c == '<',
        TokenData::ShiftRight(_) => c == '>',
        TokenData::Increment(_) => c == '+',
        TokenData::Decrement(_) => c == '-',
        TokenData::StartLoop => c == '[',
        TokenData::EndLoop => c == ']',
        TokenData::Read => c == ',',
        TokenData::Print => c == '.',
        TokenData::Other(_) => !is_command(c),
    }
}

/// True iff the token is one character whatever it is: a bracket, a comma
/// or a full stop.
pub open spec fn is_single(data: TokenData) -> bool {
    data is StartLoop || data is EndLoop || data is Read || data is Print
}

/// True iff the two tokens are of one kind and spell the same.
pub open spec fn same_token(a: TokenData, b: TokenData) -> bool {
    &&& spelling(a) == spelling(b)
    &&& forall|c: char| fits(a, c) == fits(b, c)
}

/// A token that the lexer can give spells at least one character, and each
/// character of it fits it.
pub proof fn lemma_spelling_fits(data: TokenData)
    requires
        well_formed(data),
    ensures
        spelling(data).len() >= 1,
        is_single(data) ==> spelling(data).len() == 1,
        forall|i: int| 0 <= i < spelling(data).len() ==> fits(data, #[trigger] spelling(data)[i]),
{
}

/// The text of tokens ends with the spelling of the last of them.
pub proof fn lemma_text_ends(tokens: Seq<Token>)
    requires
        tokens.len() > 0,
        well_formed(tokens.last().data),
    ensures
        text(tokens) == text(tokens.drop_last()) + spelling(tokens.last().data),
        text(tokens).len() >= 1,
        fits(tokens.last().data, text(tokens).last()),
{
    lemma_spelling_fits(tokens.last().data);
    let s = spelling(tokens.last().data);
    assert(text(tokens).last() == s[s.len() - 1]);
}

/// What is left of tokens that the lexer can give, without the last of
/// them, is tokens that the lexer can give.
pub proof fn lemma_canonical_front(tokens: Seq<Token>)
    requires
        canonical(tokens),
        tokens.len() > 0,
    ensures
        canonical(tokens.drop_last()),
{
    let front = tokens.drop_last();
    assert forall|i: int| 0 <= i < front.len() implies well_formed(#[trigger] front[i].data) by {
        assert(front[i] == tokens[i]);
    }
    assert forall|i: int, j: int| 0 <= i && j == i + 1 && j < front.len() implies !continues_run(
        #[trigger] front[i].data,
        spelling(#[trigger] front[j].data)[0],
    ) by {
        assert(front[i] == tokens[i]);
        assert(front[j] == tokens[j]);
    }
}

/// Of two lists of tokens that the lexer can give for one text, the last
/// token of the first spells no more than the last token of the second.
pub proof fn lemma_last_no_longer(a: Seq<Token>, b: Seq<Token>)
    requires
        canonical(a),
        canonical(b),
        text(a) == text(b),
        a.len() > 0,
        b.len() > 0,
    ensures
        spelling(a.last().data).len() <= spelling(b.last().data).len(),
{
    let la = a.last().data;
    let lb = b.last().data;
    let sa = spelling(la);
    let sb = spelling(lb);
    let ta = text(a.drop_last());
    let tb = text(b.drop_last());
    assert(well_formed(a[a.len() - 1].data));
    assert(well_formed(b[b.len() - 1].data));
    lemma_text_ends(a);
    lemma_text_ends(b);
    lemma_spelling_fits(la);
    lemma_spelling_fits(lb);
    let whole = text(a);
    if sa.len() > sb.len() {
        let cut = whole.len() - sb.len();
        // the first character of the second spelling stands inside the first
        assert(sb[0] == whole[cut]);
        assert(whole[cut] == sa[cut - ta.len()]);
        assert(fits(la, sb[0]));
        assert(fits(lb, sb[0]));
        // and the text before the second spelling ends inside the first
        assert(tb.len() == cut);
        assert(tb.len() > ta.len());
        assert(tb[cut - 1] == whole[cut - 1]);
        assert(whole[cut - 1] == sa[cut - 1 - ta.len()]);
        let front = b.drop_last();
        if front.len() == 0 {
            assert(tb.len() == 0);
        } else {
            lemma_canonical_front(b);
            assert(well_formed(front[front.len() - 1].data));
            lemma_text_ends(front);
            let before = front.last().data;
            assert(fits(before, tb[cut - 1]));
            assert(fits(la, tb[cut - 1]));
            assert(!is_single(la));
            assert(continues_run(before, sb[0]));
            assert(b[b.len() - 2] == front.last());
            assert(!continues_run(b[b.len() - 2].data, spelling(b[b.len() - 1].data)[0]));
        }
    }
}

/// The tokens of a text are the only ones: two lists of tokens that the
/// lexer can give, and that spell the same text, hold as many tokens, each
/// of the kind and the spelling of its counterpart.
pub proof fn law_tokens_are_unique(a: Seq<Token>, b: Seq<Token>)
    requires
        canonical(a),
        canonical(b),
        text(a) == text(b),
    ensures
        a.len() == b.len(),
        forall|i: int| 0 <= i < a.len() ==> same_token(#[trigger] a[i].data, b[i].data),
    decreases a.len(),
{
    if a.len() == 0 {
        if b.len() > 0 {
            assert(well_formed(b[b.len() - 1].data));
            lemma_text_ends(b);
        }
    } else if b.len() == 0 {
        assert(well_formed(a[a.len() - 1].data));
        lemma_text_ends(a);
    } else {
        let la = a.last().data;
        let lb = b.last().data;
        assert(well_formed(a[a.len() - 1].data));
        assert(well_formed(b[b.len() - 1].data));
        lemma_last_no_longer(a, b);
        lemma_last_no_longer(b, a);
        lemma_text_ends(a);
        lemma_text_ends(b);
        lemma_spelling_fits(la);
        lemma_spelling_fits(lb);
        let sa = spelling(la);
        let sb = spelling(lb);
        let whole = text(a);
        let cut = whole.len() - sa.len();
        assert(sa =~= whole.skip(cut));
        assert(sb =~= whole.skip(cut));
        assert(text(a.drop_last()) =~= whole.take(cut));
        assert(text(b.drop_last()) =~= whole.take(cut));
        assert(fits(la, sa[0]) && fits(lb, sa[0]));
        assert(same_token(la, lb));
        lemma_canonical_front(a);
        lemma_canonical_front(b);
        law_tokens_are_unique(a.drop_last(), b.drop_last());
        assert forall|i: int| 0 <= i < a.len() implies same_token(#[trigger] a[i].data, b[i].data) by {
            if i < a.len() - 1 {
                assert(a[i] == a.drop_last()[i]);
                assert(b[i] == b.drop_last()[i]);
            }
        }
    }
}

} // verus!
