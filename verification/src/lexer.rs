//! The lexer: turns source text into tokens, one for each run of a repeated
//! command.

use vstd::prelude::*;

verus! {

/// What a token is.
#[derive(Debug)]
pub enum TokenData {
    /// A run of `<`, with its length.
    ShiftLeft(usize),
    /// A run of `>`, with its length.
    ShiftRight(usize),
    /// A run of `+`, with its length.
    Increment(usize),
    /// A run of `-`, with its length.
    Decrement(usize),
    /// One `[`.
    StartLoop,
    /// One `]`.
    EndLoop,
    /// One `,`.
    Read,
    /// One `.`.
    Print,
    /// A run of characters that are no commands.
    Other(String),
}

/// A token.
#[derive(Debug)]
pub struct Token {
    pub data: TokenData,
}

/// The error of the lexer. No input gives it.
#[derive(Debug)]
pub struct LexerError;

/// True iff `c` is one of the eight commands.
pub open spec fn is_command(c: char) -> bool {
    c == '+' || c == '-' || c == '<' || c == '>' || c == '.' || c == ',' || c == '[' || c == ']'
}

/// `n` times the character `c`.
pub open spec fn repeated(c: char, n: nat) -> Seq<char> {
    Seq::new(n, |i: int| c)
}

/// The text that a token stands for.
pub open spec fn spelling(data: TokenData) -> Seq<char> {
    match data {
        TokenData::ShiftLeft(n) => repeated('<', n as nat),
        TokenData::ShiftRight(n) => repeated('>', n as nat),
        TokenData::Increment(n) => repeated('+', n as nat),
        TokenData::Decrement(n) => repeated('-', n as nat),
        TokenData::StartLoop => seq!['['],
        TokenData::EndLoop => seq![']'],
        TokenData::Read => seq![','],
        TokenData::Print => seq!['.'],
        TokenData::Other(s) => s@,
    }
}

/// The text that a list of tokens stands for: the spellings, one after the
/// other.
pub open spec fn text(tokens: Seq<Token>) -> Seq<char>
    decreases tokens.len(),
{
    if tokens.len() == 0 {
        Seq::empty()
    } else {
        text(tokens.drop_last()) + spelling(tokens.last().data)
    }
}

/// True iff the token is one that the lexer can give: a run has at least one
/// character, and a run of other characters holds no command.
pub open spec fn well_formed(data: TokenData) -> bool {
    match data {
        TokenData::ShiftLeft(n) => n >= 1,
        TokenData::ShiftRight(n) => n >= 1,
        TokenData::Increment(n) => n >= 1,
        TokenData::Decrement(n) => n >= 1,
        TokenData::Other(s) => s@.len() >= 1 && forall|i: int|
            0 <= i < s@.len() ==> !is_command(#[trigger] s@[i]),
        _ => true,
    }
}

/// True iff the character `c`, coming right after the token, would make its
/// run longer.
pub open spec fn continues_run(data: TokenData, c: char) -> bool {
    match data {
        TokenData::ShiftLeft(_) => c == '<',
        TokenData::ShiftRight(_) => c == '>',
        TokenData::Increment(_) => c == '+',
        TokenData::Decrement(_) => c == '-',
        TokenData::Other(_) => !is_command(c),
        _ => false,
    }
}

/// True iff the tokens are what the lexer gives for their text: each is well
/// formed, and each run is as long as it can be, so that no token goes on
/// with the run of the token before it.
pub open spec fn canonical(tokens: Seq<Token>) -> bool {
    &&& forall|i: int| 0 <= i < tokens.len() ==> well_formed(#[trigger] tokens[i].data)
    &&& forall|i: int, j: int|
        0 <= i && j == i + 1 && j < tokens.len() ==> !continues_run(
            #[trigger] tokens[i].data,
            spelling(#[trigger] tokens[j].data)[0],
        )
}

/// True iff `c` is one of the eight commands.
fn is_bf_char(c: char) -> (r: bool)
    ensures
        r == is_command(c),
{
    c == '+' || c == '-' || c == '<' || c == '>' || c == '.' || c == ',' || c == '[' || c == ']'
}

/// `String::push`: `c` goes to the end of `s`.
#[verifier::external_body]
pub(crate) fn push_char(s: &mut String, c: char)
    ensures
        final(s)@ == old(s)@.push(c),
{
    s.push(c)
}

/// The lexer: the source, how far it has been read, and the tokens so far.
pub struct Lexer {
    /// The tokens so far.
    pub tokens: Vec<Token>,
    /// The source text.
    pub data: Vec<char>,
    /// How many characters of the source have been read.
    pub index: usize,
}

impl Lexer {
    /// A lexer at the start of `data`, with no tokens.
    pub fn new(data: &str) -> (l: Self)
        ensures
            l.tokens@.len() == 0,
            l.data@ == data@,
            l.index == 0,
    {
        let mut source: Vec<char> = Vec::new();
        for c in iter: data.chars()
            invariant
                source@ == iter.seq().take(iter.index() as int),
                iter.seq() == data@,
        {
            source.push(c);
            assert(iter.seq().take(iter.index() + 1) =~= iter.seq().take(iter.index() as int).push(c));
        }
        assert(source@ =~= data@);
        Self { tokens: Vec::new(), data: source, index: 0 }
    }

    /// Adds a token with `data` after the tokens that are there.
    fn push_token(&mut self, data: TokenData)
        ensures
            final(self).tokens@ == old(self).tokens@.push(Token { data }),
            final(self).data == old(self).data,
            final(self).index == old(self).index,
    {
        self.tokens.push(Token { data });
    }

    /// Goes over the run of `c` at the place reached, and gives its length.
    fn count_char(&mut self, c: char) -> (n: usize)
        requires
            old(self).index <= old(self).data@.len(),
        ensures
            final(self).tokens == old(self).tokens,
            final(self).data == old(self).data,
            final(self).index == old(self).index + n,
            final(self).index <= old(self).data@.len(),
            old(self).data@.subrange(old(self).index as int, final(self).index as int)
                == repeated(c, n as nat),
            final(self).index < old(self).data@.len() ==> old(self).data@[final(self).index as int]
                != c,
    {
        let start = self.index;
        let mut n: usize = 0;
        while self.index < self.data.len() && self.data[self.index] == c
            invariant
                self.tokens == old(self).tokens,
                self.data == old(self).data,
                start == old(self).index,
                self.index == start + n,
                self.index <= self.data@.len(),
                self.data@.subrange(start as int, self.index as int) == repeated(c, n as nat),
            decreases self.data@.len() - self.index,
        {
            n += 1;
            self.index += 1;
            assert(self.data@.subrange(start as int, self.index as int) =~= repeated(c, n as nat));
        }
        n
    }

    /// Goes over the run of characters that are no commands at the place
    /// reached, and gives them as a string.
    fn take_other(&mut self) -> (s: String)
        requires
            old(self).index < old(self).data@.len(),
            !is_command(old(self).data@[old(self).index as int]),
        ensures
            final(self).tokens == old(self).tokens,
            final(self).data == old(self).data,
            old(self).index < final(self).index <= old(self).data@.len(),
            s@ == old(self).data@.subrange(old(self).index as int, final(self).index as int),
            well_formed(TokenData::Other(s)),
            final(self).index < old(self).data@.len() ==> is_command(
                old(self).data@[final(self).index as int],
            ),
    {
        let start = self.index;
        let mut s = String::new();
        while self.index < self.data.len() && !is_bf_char(self.data[self.index])
            invariant
                self.tokens == old(self).tokens,
                self.data == old(self).data,
                start == old(self).index,
                start <= self.index <= self.data@.len(),
                self.index == start ==> !is_command(self.data@[start as int]),
                s@ == self.data@.subrange(start as int, self.index as int),
                forall|i: int| 0 <= i < s@.len() ==> !is_command(#[trigger] s@[i]),
            decreases self.data@.len() - self.index,
        {
            push_char(&mut s, self.data[self.index]);
            self.index += 1;
            assert(s@ =~= self.data@.subrange(start as int, self.index as int));
        }
        s
    }

    /// Reads one token at the place reached.
    fn next_token(&mut self) -> (data: TokenData)
        requires
            old(self).index < old(self).data@.len(),
        ensures
            final(self).tokens == old(self).tokens,
            final(self).data == old(self).data,
            old(self).index < final(self).index <= old(self).data@.len(),
            spelling(data) == old(self).data@.subrange(
                old(self).index as int,
                final(self).index as int,
            ),
            well_formed(data),
            final(self).index < old(self).data@.len() ==> !continues_run(
                data,
                old(self).data@[final(self).index as int],
            ),
    {
        let ghost source = self.data@;
        let ghost from = self.index as int;
        let len = self.data.len();
        let next_char = self.data[self.index];
        if next_char == '+' {
            let n = self.count_char('+');
            assert(n >= 1) by {
                if n == 0 {
                    assert(source[from] == '+');
                }
            }
            TokenData::Increment(n)
        } else if next_char == '-' {
            let n = self.count_char('-');
            assert(n >= 1) by {
                if n == 0 {
                    assert(source[from] == '-');
                }
            }
            TokenData::Decrement(n)
        } else if next_char == '>' {
            let n = self.count_char('>');
            assert(n >= 1) by {
                if n == 0 {
                    assert(source[from] == '>');
                }
            }
            TokenData::ShiftRight(n)
        } else if next_char == '<' {
            let n = self.count_char('<');
            assert(n >= 1) by {
                if n == 0 {
                    assert(source[from] == '<');
                }
            }
            TokenData::ShiftLeft(n)
        } else if next_char == '.' {
            self.index += 1;
            assert(source.subrange(from, from + 1) =~= seq!['.']);
            TokenData::Print
        } else if next_char == ',' {
            self.index += 1;
            assert(source.subrange(from, from + 1) =~= seq![',']);
            TokenData::Read
        } else if next_char == ']' {
            self.index += 1;
            assert(source.subrange(from, from + 1) =~= seq![']']);
            TokenData::EndLoop
        } else if next_char == '[' {
            self.index += 1;
            assert(source.subrange(from, from + 1) =~= seq!['[']);
            TokenData::StartLoop
        } else {
            let s = self.take_other();
            TokenData::Other(s)
        }
    }

    /// Turns the rest of the source into tokens, after the tokens that are
    /// there.
    ///
    /// The new tokens spell the rest of the source, and each run is one
    /// token. No input fails.
    #[verifier::loop_isolation(false)]
    pub fn lex(&mut self) -> (res: Result<(), LexerError>)
        requires
            old(self).index <= old(self).data@.len(),
        ensures
            res is Ok,
            final(self).data == old(self).data,
            final(self).index == old(self).data@.len(),
            final(self).tokens@.len() >= old(self).tokens@.len(),
            final(self).tokens@.take(old(self).tokens@.len() as int) == old(self).tokens@,
            text(final(self).tokens@.skip(old(self).tokens@.len() as int)) == old(
                self,
            ).data@.skip(old(self).index as int),
            canonical(final(self).tokens@.skip(old(self).tokens@.len() as int)),
    {
        let ghost base = self.tokens@.len() as int;
        let ghost source = self.data@;
        let ghost start = self.index as int;
        proof {
            assert(self.tokens@.skip(base) =~= Seq::<Token>::empty());
            assert(source.subrange(start, start) =~= Seq::<char>::empty());
            assert(self.tokens@.take(base) =~= self.tokens@);
        }
        while self.index < self.data.len()
            invariant
                self.data == old(self).data,
                start <= self.index <= source.len(),
                self.tokens@.len() >= base,
                self.tokens@.take(base) == old(self).tokens@,
                text(self.tokens@.skip(base)) == source.subrange(start, self.index as int),
                canonical(self.tokens@.skip(base)),
                self.tokens@.len() > base && self.index < source.len() ==> !continues_run(
                    self.tokens@.last().data,
                    source[self.index as int],
                ),
            decreases source.len() - self.index,
        {
            let ghost before = self.tokens@;
            let ghost from = self.index as int;
            let data = self.next_token();
            self.push_token(data);
            proof {
                assert(self.tokens@.take(base) =~= before.take(base));
                assert(self.tokens@.skip(base) =~= before.skip(base).push(Token { data }));
                lemma_one_more(before.skip(base), Token { data }, source, start, from, self.index as int);
            }
        }
        proof {
            assert(source.subrange(start, source.len() as int) =~= source.skip(start));
        }
        Ok(())
    }
}

/// The tokens of a text with one more token after them are the tokens of the
/// longer text.
pub proof fn lemma_one_more(
    tokens: Seq<Token>,
    added: Token,
    source: Seq<char>,
    start: int,
    from: int,
    to: int,
)
    requires
        0 <= start <= from < to <= source.len(),
        text(tokens) == source.subrange(start, from),
        canonical(tokens),
        tokens.len() > 0 ==> !continues_run(tokens.last().data, source[from]),
        spelling(added.data) == source.subrange(from, to),
        well_formed(added.data),
    ensures
        text(tokens.push(added)) == source.subrange(start, to),
        canonical(tokens.push(added)),
{
    let now = tokens.push(added);
    assert(now.drop_last() =~= tokens);
    assert(text(now) =~= source.subrange(start, to));
    assert(spelling(added.data)[0] == source[from]);
    assert forall|i: int| 0 <= i < now.len() implies well_formed(#[trigger] now[i].data) by {
        if i < tokens.len() {
            assert(now[i] == tokens[i]);
        }
    }
    assert forall|i: int, j: int| 0 <= i && j == i + 1 && j < now.len() implies !continues_run(
        #[trigger] now[i].data,
        spelling(#[trigger] now[j].data)[0],
    ) by {
        assert(now[i] == tokens[i]);
        if j < tokens.len() {
            assert(now[j] == tokens[j]);
        }
    }
}

} // verus!
