use vstd::prelude::*;

use crate::error::{Error, ErrorCode};

verus! {

/// Number of newline bytes in `s`.
pub open spec fn line_breaks(s: Seq<u8>) -> nat
    decreases s.len(),
{
    if s.len() == 0 {
        0
    } else {
        line_breaks(s.drop_last()) + if s.last() == 10u8 {
            1nat
        } else {
            0nat
        }
    }
}

/// Number of bytes on the current (last) line of `s`.
pub open spec fn last_line_len(s: Seq<u8>) -> nat
    decreases s.len(),
{
    if s.len() == 0 {
        0
    } else if s.last() == 10u8 {
        0
    } else {
        last_line_len(s.drop_last()) + 1
    }
}

proof fn lemma_counts_le(s: Seq<u8>)
    ensures
        line_breaks(s) <= s.len(),
        last_line_len(s) <= s.len(),
    decreases s.len(),
{
    if s.len() > 0 {
        lemma_counts_le(s.drop_last());
    }
}

proof fn lemma_counts_push(s: Seq<u8>, b: u8)
    ensures
        line_breaks(s.push(b)) == line_breaks(s) + if b == 10u8 {
            1nat
        } else {
            0nat
        },
        last_line_len(s.push(b)) == if b == 10u8 {
            0nat
        } else {
            last_line_len(s) + 1
        },
{
    assert(s.push(b).drop_last() =~= s);
}

/// A pushback-capable byte cursor over an in-memory source, with line/column
/// position tracking and a skipper for whitespace and comments.
///
/// Bytes are pulled from the source into a lookahead buffer as peeking
/// requires; position advances when a byte is pulled from the source, not
/// when it is later read out of the buffer.
pub struct StringReader {
    input: Vec<u8>,
    cursor: usize,
    line: usize,
    col: usize,
    ch: Vec<u8>,
}

impl StringReader {
    /// All bytes of the underlying source.
    pub closed spec fn source(self) -> Seq<u8> {
        self.input@
    }

    /// The bytes pulled from the source so far; position tracking follows these.
    pub closed spec fn scanned(self) -> Seq<u8> {
        self.input@.take(self.cursor as int)
    }

    /// The bytes not yet handed out: the lookahead buffer, then the unpulled
    /// rest of the source.
    pub closed spec fn remaining(self) -> Seq<u8> {
        self.ch@ + self.input@.skip(self.cursor as int)
    }

    /// Length of the lookahead buffer.
    pub closed spec fn buffered(self) -> nat {
        self.ch@.len()
    }

    /// The reader's internal consistency: the cursor lies within the source
    /// and the tracked position matches the pulled prefix.
    pub closed spec fn wf(self) -> bool {
        &&& self.cursor <= self.input@.len()
        &&& self.input@.len() < usize::MAX
        &&& self.line == 1 + line_breaks(self.scanned())
        &&& self.col == last_line_len(self.scanned())
    }

    /// How the exposed pieces relate: the buffer is a prefix of `remaining`,
    /// and the source splits into the pulled prefix and the unpulled suffix.
    pub proof fn lemma_shape(self)
        requires
            self.wf(),
        ensures
            self.buffered() <= self.remaining().len(),
            self.remaining().len() - self.buffered() + self.scanned().len() == self.source().len(),
            self.remaining().skip(self.buffered() as int) == self.source().skip(
                self.scanned().len() as int,
            ),
            self.scanned() == self.source().take(self.scanned().len() as int),
    {
        assert(self.remaining().skip(self.buffered() as int) =~= self.source().skip(
            self.scanned().len() as int,
        ));
    }

    /// When a reader moves from `pre` to `post` over the same source by
    /// examining exactly the first `k` bytes of what remained — consuming
    /// or buffering each of them, pulling only on demand — the pulled
    /// prefix grows by exactly the examined bytes beyond those already
    /// buffered.
    pub proof fn lemma_pulled_after(pre: StringReader, post: StringReader, k: int)
        requires
            pre.wf(),
            post.wf(),
            post.source() == pre.source(),
            pre.buffered() <= k <= pre.remaining().len(),
            post.remaining().len() - post.buffered() == pre.remaining().len() - k,
        ensures
            post.scanned() == pre.scanned() + pre.remaining().subrange(pre.buffered() as int, k),
    {
        assert(pre.remaining().len() - pre.buffered() == pre.source().len() - pre.cursor);
        assert(post.scanned() =~= pre.scanned() + pre.remaining().subrange(
            pre.buffered() as int,
            k,
        ));
    }

    /// Wrap a byte source, starting at line 1, column 0, with nothing buffered.
    pub fn new(input: Vec<u8>) -> (r: StringReader)
        requires
            input@.len() < usize::MAX,
        ensures
            r.wf(),
            r.source() == input@,
            r.remaining() == input@,
            r.scanned() == Seq::<u8>::empty(),
            r.buffered() == 0,
    {
        let r = StringReader { input, cursor: 0, line: 1, col: 0, ch: Vec::new() };
        proof {
            assert(r.remaining() =~= r.input@);
            assert(r.scanned() =~= Seq::<u8>::empty());
        }
        r
    }

    /// Pull one byte from the source, advancing the tracked position.
    /// Does not touch the lookahead buffer.
    fn next(&mut self) -> (r: Option<u8>)
        requires
            old(self).wf(),
        ensures
            final(self).wf(),
            final(self).input == old(self).input,
            final(self).ch == old(self).ch,
            if old(self).cursor < old(self).input@.len() {
                r == Some(old(self).input@[old(self).cursor as int]) && final(self).cursor
                    == old(self).cursor + 1
            } else {
                r is None && final(self).cursor == old(self).cursor
            },
    {
        if self.cursor < self.input.len() {
            let c = self.input[self.cursor];
            proof {
                lemma_counts_le(self.scanned());
                lemma_counts_push(self.scanned(), c);
                assert(self.input@.take(self.cursor + 1) =~= self.scanned().push(c));
            }
            self.cursor = self.cursor + 1;
            if c == 10 {
                self.line = self.line + 1;
                self.col = 0;
            } else {
                self.col = self.col + 1;
            }
            Some(c)
        } else {
            None
        }
    }

    /// The (line, column) position reflecting the most recently pulled byte.
    pub fn pos(&mut self) -> (r: (usize, usize))
        requires
            old(self).wf(),
        ensures
            *final(self) == *old(self),
            r.0 == 1 + line_breaks(old(self).scanned()),
            r.1 == last_line_len(old(self).scanned()),
    {
        (self.line, self.col)
    }

    /// Build a positioned syntax error at the current position.
    pub fn error(&mut self, reason: ErrorCode) -> (r: Error)
        requires
            old(self).wf(),
        ensures
            *final(self) == *old(self),
            r == (Error {
                code: reason,
                line: old(self).line_now() as usize,
                col: old(self).col_now() as usize,
            }),
    {
        Error { code: reason, line: self.line, col: self.col }
    }

    /// The 1-based line of the most recently pulled byte.
    pub open spec fn line_now(self) -> nat {
        1 + line_breaks(self.scanned())
    }

    /// The 0-based column of the most recently pulled byte.
    pub open spec fn col_now(self) -> nat {
        last_line_len(self.scanned())
    }

    /// The byte at lookahead offset `idx`, without consuming anything; `None`
    /// when the source is exhausted before that offset. Pulls bytes into the
    /// lookahead buffer as needed.
    pub fn peek_next(&mut self, idx: usize) -> (r: Result<Option<u8>, Error>)
        requires
            old(self).wf(),
        ensures
            final(self).wf(),
            final(self).source() == old(self).source(),
            final(self).remaining() == old(self).remaining(),
            idx < old(self).remaining().len() ==> r == Ok::<Option<u8>, Error>(
                Some(old(self).remaining()[idx as int]),
            ) && final(self).buffered() == if old(self).buffered() > idx {
                old(self).buffered()
            } else {
                (idx + 1) as nat
            },
            idx >= old(self).remaining().len() ==> r == Ok::<Option<u8>, Error>(None)
                && final(self).buffered() == old(self).remaining().len(),
    {
        while self.ch.len() <= idx
            invariant
                self.wf(),
                self.source() == old(self).source(),
                self.remaining() == old(self).remaining(),
                self.buffered() == old(self).buffered() || (old(self).buffered() <= self.buffered()
                    <= idx + 1),
            decreases idx + 1 - self.ch.len(),
        {
            let ghost prev = *self;
            match self.next() {
                Some(c) => {
                    self.ch.push(c);
                    proof {
                        assert(self.remaining() =~= prev.remaining());
                    }
                },
                None => {
                    proof {
                        assert(self.remaining() =~= self.ch@);
                    }
                    return Ok(None);
                },
            }
        }
        proof {
            assert(self.remaining()[idx as int] == self.ch@[idx as int]);
        }
        Ok(Some(self.ch[idx]))
    }

    /// The next unconsumed byte, without consuming it.
    pub fn peek(&mut self) -> (r: Result<Option<u8>, Error>)
        requires
            old(self).wf(),
        ensures
            final(self).wf(),
            final(self).source() == old(self).source(),
            final(self).remaining() == old(self).remaining(),
            old(self).remaining().len() > 0 ==> r == Ok::<Option<u8>, Error>(
                Some(old(self).remaining()[0]),
            ),
            old(self).remaining().len() == 0 ==> r == Ok::<Option<u8>, Error>(None),
            final(self).buffered() == if old(self).remaining().len() == 0 {
                0nat
            } else if old(self).buffered() > 0 {
                old(self).buffered()
            } else {
                1nat
            },
    {
        self.peek_next(0)
    }

    /// The next unconsumed byte, with end-of-input coerced to a sentinel zero
    /// byte so grammar code can treat exhaustion like an ordinary byte.
    pub fn peek_or_null(&mut self) -> (r: Result<u8, Error>)
        requires
            old(self).wf(),
        ensures
            final(self).wf(),
            final(self).source() == old(self).source(),
            final(self).remaining() == old(self).remaining(),
            r == Ok::<u8, Error>(first_or_null(old(self).remaining())),
            final(self).buffered() == if old(self).remaining().len() == 0 {
                0nat
            } else if old(self).buffered() > 0 {
                old(self).buffered()
            } else {
                1nat
            },
    {
        match self.peek_next(0) {
            Ok(Some(c)) => Ok(c),
            Ok(None) => Ok(0),
            Err(e) => Err(e),
        }
    }

    /// Whether the input is exhausted.
    pub fn eof(&mut self) -> (r: Result<bool, Error>)
        requires
            old(self).wf(),
        ensures
            final(self).wf(),
            final(self).source() == old(self).source(),
            final(self).remaining() == old(self).remaining(),
            r == Ok::<bool, Error>(old(self).remaining().len() == 0),
    {
        match self.peek() {
            Ok(c) => Ok(c.is_none()),
            Err(e) => Err(e),
        }
    }

    /// Drop the front byte of the lookahead buffer. Callers pair this with a
    /// preceding peek that filled the buffer.
    pub fn eat_char(&mut self)
        requires
            old(self).wf(),
            old(self).buffered() >= 1,
        ensures
            final(self).wf(),
            final(self).source() == old(self).source(),
            final(self).scanned() == old(self).scanned(),
            final(self).remaining() == old(self).remaining().skip(1),
            final(self).buffered() == old(self).buffered() - 1,
    {
        self.ch.remove(0);
        proof {
            assert(self.remaining() =~= old(self).remaining().skip(1));
        }
    }

    /// Re-insert `ch` at the front of the lookahead buffer: the one-byte
    /// pushback the number grammar needs.
    pub fn uneat_char(&mut self, ch: u8)
        requires
            old(self).wf(),
        ensures
            final(self).wf(),
            final(self).source() == old(self).source(),
            final(self).scanned() == old(self).scanned(),
            final(self).remaining() == seq![ch] + old(self).remaining(),
            final(self).buffered() == old(self).buffered() + 1,
    {
        self.ch.insert(0, ch);
        proof {
            assert(self.remaining() =~= seq![ch] + old(self).remaining());
        }
    }

    /// Remove and return the front byte: from the buffer if non-empty,
    /// otherwise pulled directly from the source. `None` at end of input.
    pub fn next_char(&mut self) -> (r: Result<Option<u8>, Error>)
        requires
            old(self).wf(),
        ensures
            final(self).wf(),
            final(self).source() == old(self).source(),
            old(self).remaining().len() > 0 ==> r == Ok::<Option<u8>, Error>(
                Some(old(self).remaining()[0]),
            ) && final(self).remaining() == old(self).remaining().skip(1),
            old(self).remaining().len() == 0 ==> r == Ok::<Option<u8>, Error>(None)
                && final(self).remaining() == old(self).remaining(),
            final(self).buffered() == if old(self).buffered() > 0 {
                (old(self).buffered() - 1) as nat
            } else {
                0nat
            },
    {
        if self.ch.len() > 0 {
            let c = self.ch.remove(0);
            proof {
                assert(self.remaining() =~= old(self).remaining().skip(1));
            }
            Ok(Some(c))
        } else {
            let r = self.next();
            proof {
                if old(self).remaining().len() > 0 {
                    assert(old(self).remaining() =~= old(self).source().skip(
                        old(self).cursor as int,
                    ));
                    assert(self.remaining() =~= old(self).remaining().skip(1));
                } else {
                    assert(self.remaining() =~= old(self).remaining());
                }
            }
            Ok(r)
        }
    }

    /// `next_char` with end-of-input coerced to the sentinel zero byte.
    pub fn next_char_or_null(&mut self) -> (r: Result<u8, Error>)
        requires
            old(self).wf(),
        ensures
            final(self).wf(),
            final(self).source() == old(self).source(),
            r == Ok::<u8, Error>(first_or_null(old(self).remaining())),
            final(self).remaining() == if old(self).remaining().len() > 0 {
                old(self).remaining().skip(1)
            } else {
                old(self).remaining()
            },
            final(self).buffered() == if old(self).buffered() > 0 {
                (old(self).buffered() - 1) as nat
            } else {
                0nat
            },
    {
        match self.next_char() {
            Ok(Some(c)) => Ok(c),
            Ok(None) => Ok(0),
            Err(e) => Err(e),
        }
    }

    /// Consume through the end of the current line; the newline itself stays.
    fn eat_line(&mut self) -> (r: Result<(), Error>)
        requires
            old(self).wf(),
        ensures
            final(self).wf(),
            final(self).source() == old(self).source(),
            r == Ok::<(), Error>(()),
            final(self).remaining() == skip_to_newline(old(self).remaining()),
            final(self).buffered() <= 1 || final(self).buffered() + old(self).remaining().len()
                <= old(self).buffered() + final(self).remaining().len(),
    {
        loop
            invariant
                self.wf(),
                self.source() == old(self).source(),
                skip_to_newline(self.remaining()) == skip_to_newline(old(self).remaining()),
                self.buffered() <= 1 || self.buffered() + old(self).remaining().len()
                    <= old(self).buffered() + self.remaining().len(),
            decreases self.remaining().len(),
        {
            match self.peek() {
                Err(e) => {
                    return Err(e);
                },
                Ok(None) => {
                    return Ok(());
                },
                Ok(Some(c)) => {
                    if c == 10 {
                        return Ok(());
                    }
                    self.eat_char();
                },
            }
        }
    }

    /// Repeatedly consume whitespace, `#` and `//` comments through end of
    /// line, and `/*...*/` block comments, stopping at the first byte that
    /// begins none of these. A stray `/` that opens no comment is swallowed
    /// as an ordinary byte (a preserved quirk). Fails with
    /// `TrailingCharacters` when a block comment never closes, or when a
    /// lone `/` is the last byte of the input.
    pub fn parse_whitespace(&mut self) -> (r: Result<(), Error>)
        requires
            old(self).wf(),
        ensures
            final(self).wf(),
            final(self).source() == old(self).source(),
            match skip_insig(old(self).remaining()) {
                Some(rest) => r == Ok::<(), Error>(()) && final(self).remaining() == rest && (old(
                    self,
                ).buffered() <= 1 ==> final(self).buffered() == if rest.len() == 0 {
                    0nat
                } else {
                    1nat
                }),
                None => r == Err::<(), Error>(
                    (Error {
                        code: ErrorCode::TrailingCharacters,
                        line: final(self).line_now() as usize,
                        col: final(self).col_now() as usize,
                    }),
                ) && final(self).scanned() == old(self).source() && final(self).buffered() <= 1,
            },
    {
        loop
            invariant
                self.wf(),
                self.source() == old(self).source(),
                skip_insig(self.remaining()) == skip_insig(old(self).remaining()),
                old(self).buffered() <= 1 ==> self.buffered() <= 1,
            decreases self.remaining().len(),
        {
            let ghost top = self.remaining();
            let b = match self.peek_or_null() {
                Ok(b) => b,
                Err(e) => {
                    return Err(e);
                },
            };
            if b == 32 || b == 9 || b == 13 || b == 10 {
                self.eat_char();
            } else if b == 35 {
                proof {
                    lemma_skip_to_newline_len(top);
                }
                match self.eat_line() {
                    Ok(()) => {},
                    Err(e) => {
                        return Err(e);
                    },
                }
            } else if b == 47 {
                let b1 = match self.peek_next(1) {
                    Ok(b1) => b1,
                    Err(e) => {
                        return Err(e);
                    },
                };
                match b1 {
                    Some(47) => {
                        proof {
                            lemma_skip_to_newline_len(top);
                        }
                        match self.eat_line() {
                            Ok(()) => {},
                            Err(e) => {
                                return Err(e);
                            },
                        }
                    },
                    Some(42) => {
                        self.eat_char();
                        self.eat_char();
                        proof {
                            assert(self.remaining() =~= top.skip(2));
                        }
                        let ghost opened = self.remaining();
                        loop
                            invariant_except_break
                                self.wf(),
                                self.source() == old(self).source(),
                                self.remaining().len() <= opened.len(),
                                old(self).buffered() <= 1 ==> self.buffered() <= 1,
                                (match close_block_comment(self.remaining()) {
                                    Some(u) => skip_insig(u),
                                    None => None::<Seq<u8>>,
                                }) == skip_insig(old(self).remaining()),
                            ensures
                                self.wf(),
                                self.source() == old(self).source(),
                                self.remaining().len() <= opened.len(),
                                old(self).buffered() <= 1 ==> self.buffered() == 0,
                                skip_insig(self.remaining()) == skip_insig(old(self).remaining()),
                            decreases self.remaining().len(),
                        {
                            let ghost inner = self.remaining();
                            match self.peek() {
                                Err(e) => {
                                    return Err(e);
                                },
                                Ok(None) => {
                                    proof {
                                        assert(self.scanned() =~= self.input@);
                                    }
                                    let e = self.error(ErrorCode::TrailingCharacters);
                                    return Err(e);
                                },
                                Ok(Some(c)) => {
                                    if c == 42 {
                                        let c1 = match self.peek_next(1) {
                                            Ok(c1) => c1,
                                            Err(e) => {
                                                return Err(e);
                                            },
                                        };
                                        match c1 {
                                            Some(47) => {
                                                self.eat_char();
                                                self.eat_char();
                                                proof {
                                                    assert(self.remaining() =~= inner.skip(2));
                                                }
                                                break;
                                            },
                                            None => {
                                                proof {
                                                    assert(self.scanned() =~= self.input@);
                                                }
                                                let e = self.error(ErrorCode::TrailingCharacters);
                                                return Err(e);
                                            },
                                            Some(_) => {
                                                self.eat_char();
                                            },
                                        }
                                    } else {
                                        self.eat_char();
                                    }
                                },
                            }
                        }
                    },
                    Some(_) => {
                        self.eat_char();
                    },
                    None => {
                        proof {
                            assert(self.scanned() =~= self.input@);
                        }
                        let e = self.error(ErrorCode::TrailingCharacters);
                        return Err(e);
                    },
                }
            } else {
                return Ok(());
            }
        }
    }
}

/// The first byte of `s`, or the sentinel zero byte when `s` is empty.
pub open spec fn first_or_null(s: Seq<u8>) -> u8 {
    if s.len() > 0 {
        s[0]
    } else {
        0
    }
}

/// Whether `b` is insignificant whitespace: space, tab, carriage return, or
/// line feed.
pub open spec fn is_space(b: u8) -> bool {
    b == 32 || b == 9 || b == 13 || b == 10
}

/// `s` with everything before its first newline removed; the newline itself
/// stays. All of `s` goes when it holds no newline.
pub open spec fn skip_to_newline(s: Seq<u8>) -> Seq<u8>
    decreases s.len(),
{
    if s.len() == 0 {
        s
    } else if s[0] == 10 {
        s
    } else {
        skip_to_newline(s.skip(1))
    }
}

pub proof fn lemma_skip_to_newline_len(s: Seq<u8>)
    ensures
        skip_to_newline(s).len() <= s.len(),
        s.len() > 0 && s[0] != 10 ==> skip_to_newline(s).len() < s.len(),
    decreases s.len(),
{
    if s.len() > 0 && s[0] != 10 {
        lemma_skip_to_newline_len(s.skip(1));
    }
}

/// What remains of `s` after the first closing `*/`, where `s` starts just
/// past an opening `/*`. `None` when no `*/` follows before the input ends.
pub open spec fn close_block_comment(s: Seq<u8>) -> Option<Seq<u8>>
    decreases s.len(),
{
    if s.len() < 2 {
        None
    } else if s[0] == 42 && s[1] == 47 {
        Some(s.skip(2))
    } else {
        close_block_comment(s.skip(1))
    }
}

pub proof fn lemma_close_block_comment_len(s: Seq<u8>)
    ensures
        close_block_comment(s) matches Some(u) ==> u.len() + 2 <= s.len(),
    decreases s.len(),
{
    if s.len() >= 2 && !(s[0] == 42 && s[1] == 47) {
        lemma_close_block_comment_len(s.skip(1));
    }
}

/// Skipping insignificant content only ever consumes: what is left is
/// never longer than what was there.
pub proof fn lemma_skip_insig_le(s: Seq<u8>)
    ensures
        skip_insig(s) matches Some(u) ==> u.len() <= s.len(),
    decreases s.len(),
{
    if s.len() == 0 {
    } else if is_space(s[0]) {
        lemma_skip_insig_le(s.skip(1));
    } else if s[0] == 35 {
        lemma_skip_to_newline_len(s);
        lemma_skip_insig_le(skip_to_newline(s));
    } else if s[0] == 47 {
        if s.len() == 1 {
        } else if s[1] == 47 {
            lemma_skip_to_newline_len(s);
            lemma_skip_insig_le(skip_to_newline(s));
        } else if s[1] == 42 {
            lemma_close_block_comment_len(s.skip(2));
            match close_block_comment(s.skip(2)) {
                Some(u) => {
                    lemma_skip_insig_le(u);
                },
                None => {},
            }
        } else {
            lemma_skip_insig_le(s.skip(1));
        }
    }
}

/// The suffix of `s` left after all leading insignificant content:
/// whitespace, `#` and `//` comments through end of line, and `/*...*/`
/// block comments. A `/` that opens no comment is silently swallowed as an
/// ordinary byte — a preserved quirk of this grammar, not a fix candidate.
/// `None` when a block comment is unterminated or a lone `/` ends the input.
pub open spec fn skip_insig(s: Seq<u8>) -> Option<Seq<u8>>
    decreases s.len(),
{
    proof {
        lemma_skip_to_newline_len(s);
        if s.len() >= 2 {
            lemma_close_block_comment_len(s.skip(2));
        }
    }
    if s.len() == 0 {
        Some(s)
    } else if is_space(s[0]) {
        skip_insig(s.skip(1))
    } else if s[0] == 35 {
        skip_insig(skip_to_newline(s))
    } else if s[0] == 47 {
        if s.len() == 1 {
            None
        } else if s[1] == 47 {
            skip_insig(skip_to_newline(s))
        } else if s[1] == 42 {
            match close_block_comment(s.skip(2)) {
                Some(u) => skip_insig(u),
                None => None,
            }
        } else {
            skip_insig(s.skip(1))
        }
    } else {
        Some(s)
    }
}

} // verus!
