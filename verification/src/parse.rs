//! Lexical and grammatical analysis: scanning a source buffer into a
//! sequence of words, and parsing those words into commands.
//!
//! The scan walks the buffer one byte at a time with an explicit cursor.
//! Metacharacters end the word accumulated so far and, when they are not
//! whitespace, become one-byte tokens of their own.  A backslash escapes the
//! byte after it (a backslash before a newline is a line continuation), and a
//! word whose first byte is `#` starts a comment that runs to the end of the
//! line.  The whole behaviour is stated by the recursive specification
//! function [`scan_rest`], and the executable lexer is proved to return
//! exactly what it describes.
//!
//! The parser then reads the token stream into the command model: pipeline
//! chains with their terminators, flags and redirections, and subshell and
//! brace groups.  Its behaviour is stated the same way, by the recursive
//! grammar function [`parse_rest`].

use vstd::prelude::*;

verus! {

/// Byte values the scanner branches on.
pub const SPACE: u8 = 32;

pub const TAB: u8 = 9;

pub const NEWLINE: u8 = 10;

pub const PIPE: u8 = 124;

pub const AMPERSAND: u8 = 38;

pub const SEMICOLON: u8 = 59;

pub const LEFT_PAREN: u8 = 40;

pub const RIGHT_PAREN: u8 = 41;

pub const LESS_THAN: u8 = 60;

pub const GREATER_THAN: u8 = 62;

pub const BACKSLASH: u8 = 92;

pub const HASH: u8 = 35;


/// A half-open range of byte offsets into one source buffer, for diagnostics.
///
/// Offsets are 32-bit; a longer source is rejected before scanning starts.
#[derive(Clone, Copy, Debug, PartialEq, Eq, Structural)]
pub struct Span {
    pub source_id: u32,
    pub start: u32,
    pub end: u32,
}

/// Which quoting rules later expansion layers must apply to a word.
#[derive(Clone, Copy, Debug, PartialEq, Eq, Structural)]
pub enum Restriction {
    No,
    DoubleQuot,
    SingleQuot,
}

/// One word of the source: its bytes after escape processing, its quoting
/// restriction, and where in the source it came from.
#[derive(Debug)]
pub struct Token {
    pub value: Vec<u8>,
    pub restriction: Restriction,
    pub span: Span,
}

/// Why a scan failed.
#[derive(Clone, Copy, Debug, PartialEq, Eq, Structural)]
pub enum LexError {
    /// The source ends with a backslash that escapes nothing.
    TrailingBackslash,
    /// The source is longer than the span offsets can address.
    SourceTooLarge,
}

/// Specification-level image of one token: its bytes, its span, and whether
/// escape processing forced the bytes into an owned buffer (`materialized`)
/// rather than a verbatim slice of the source.
pub struct TokenModel {
    pub value: Seq<u8>,
    pub start: int,
    pub end: int,
    pub materialized: bool,
}

/// An executable token carries exactly what a [`TokenModel`] describes.
pub open spec fn token_matches(t: Token, m: TokenModel, source_id: u32) -> bool {
    &&& t.value@ == m.value
    &&& t.restriction == Restriction::No
    &&& t.span.source_id == source_id
    &&& t.span.start as int == m.start
    &&& t.span.end as int == m.end
}

pub open spec fn is_meta(b: u8) -> bool {
    ||| b == SPACE
    ||| b == TAB
    ||| b == NEWLINE
    ||| b == PIPE
    ||| b == AMPERSAND
    ||| b == SEMICOLON
    ||| b == LEFT_PAREN
    ||| b == RIGHT_PAREN
    ||| b == LESS_THAN
    ||| b == GREATER_THAN
}

pub open spec fn is_whitespace(b: u8) -> bool {
    b == SPACE || b == TAB || b == NEWLINE
}

/// The bytes of the word that began at `last_start` and ends at `i`: the
/// verbatim source slice, unless escape processing already moved the word
/// into an owned buffer.
pub open spec fn word_value(src: Seq<u8>, last_start: int, buf: Option<Seq<u8>>, i: int) -> Seq<u8> {
    match buf {
        None => src.subrange(last_start, i),
        Some(b) => b,
    }
}

/// A committed word starts a comment exactly when its first byte is `#`.
pub open spec fn starts_comment(w: Seq<u8>) -> bool {
    w.len() > 0 && w[0] == HASH
}

/// The tokens a word commit at offset `i` contributes: none for an empty
/// word or a comment word, otherwise the one word token.
pub open spec fn commit_toks(
    src: Seq<u8>,
    last_start: int,
    buf: Option<Seq<u8>>,
    i: int,
) -> Seq<TokenModel> {
    let w = word_value(src, last_start, buf, i);
    if w.len() == 0 || starts_comment(w) {
        Seq::empty()
    } else {
        seq![TokenModel { value: w, start: last_start, end: i, materialized: buf is Some }]
    }
}

/// The one-byte token a non-whitespace metacharacter becomes.
pub open spec fn meta_tok(src: Seq<u8>, i: int) -> TokenModel {
    TokenModel { value: seq![src[i]], start: i, end: i + 1, materialized: false }
}

pub open spec fn prepend_toks(
    pre: Seq<TokenModel>,
    r: Result<Seq<TokenModel>, LexError>,
) -> Result<Seq<TokenModel>, LexError> {
    match r {
        Ok(ts) => Ok(pre + ts),
        Err(e) => Err(e),
    }
}

/// The tokens produced from offset `i` to the end of the source, given the
/// scan state: the start of the current word, its escape buffer if escape
/// processing has begun, and whether a comment is being consumed.
///
/// This is the behavioural specification of the lexer.
pub open spec fn scan_rest(
    src: Seq<u8>,
    i: int,
    last_start: int,
    buf: Option<Seq<u8>>,
    in_comment: bool,
) -> Result<Seq<TokenModel>, LexError>
    decreases src.len() - i,
{
    if i >= src.len() {
        if in_comment {
            Ok(Seq::empty())
        } else {
            Ok(commit_toks(src, last_start, buf, src.len() as int))
        }
    } else if in_comment {
        // A comment runs through the next newline; nothing is emitted.
        if src[i] == NEWLINE {
            scan_rest(src, i + 1, i + 1, None, false)
        } else {
            scan_rest(src, i + 1, last_start, buf, true)
        }
    } else if is_meta(src[i]) {
        // Commit the word, then the metacharacter stands as its own token
        // unless it is whitespace.  A committed comment word is dropped and
        // the bytes after the metacharacter are consumed as the comment.
        let w = word_value(src, last_start, buf, i);
        let committed = commit_toks(src, last_start, buf, i);
        let with_meta = if is_whitespace(src[i]) {
            committed
        } else {
            committed + seq![meta_tok(src, i)]
        };
        prepend_toks(with_meta, scan_rest(src, i + 1, i + 1, None, starts_comment(w)))
    } else if src[i] == BACKSLASH {
        if i + 1 >= src.len() {
            Err(LexError::TrailingBackslash)
        } else {
            // The backslash is removed; the escaped byte is kept literally,
            // except that an escaped newline disappears entirely (a line
            // continuation).  Either way the word now owns its bytes.
            let base = word_value(src, last_start, buf, i);
            let nb = if src[i + 1] == NEWLINE {
                base
            } else {
                base.push(src[i + 1])
            };
            scan_rest(src, i + 2, last_start, Some(nb), false)
        }
    } else {
        let nb = match buf {
            None => None,
            Some(b) => Some(b.push(src[i])),
        };
        scan_rest(src, i + 1, last_start, nb, false)
    }
}

/// What lexing a whole source buffer yields.
pub open spec fn spec_lex(src: Seq<u8>) -> Result<Seq<TokenModel>, LexError> {
    if src.len() > u32::MAX {
        Err(LexError::SourceTooLarge)
    } else {
        scan_rest(src, 0, 0, None, false)
    }
}

/// Recognizes the bytes that end a word: whitespace and the shell's
/// structural operator characters.
pub fn is_metacharacter(c: u8) -> (r: bool)
    ensures
        r == is_meta(c),
{
    c == SPACE || c == TAB || c == NEWLINE || c == PIPE || c == AMPERSAND || c == SEMICOLON || c == LEFT_PAREN
        || c == RIGHT_PAREN || c == LESS_THAN || c == GREATER_THAN
}

/// The offset just past the newline that ends a comment whose unconsumed
/// bytes start at `j` (the end of the source if no newline follows).
pub open spec fn comment_end(src: Seq<u8>, j: int) -> int
    decreases src.len() - j,
{
    if j >= src.len() {
        src.len() as int
    } else if src[j] == NEWLINE {
        j + 1
    } else {
        comment_end(src, j + 1)
    }
}

proof fn lemma_comment_end_bounds(src: Seq<u8>, j: int)
    requires
        0 <= j <= src.len(),
    ensures
        j <= comment_end(src, j) <= src.len(),
    decreases src.len() - j,
{
    if j < src.len() && src[j] != NEWLINE {
        lemma_comment_end_bounds(src, j + 1);
    }
}

/// Consuming a comment is the same as jumping to just past its newline and
/// starting a fresh word there; the stale word state is discarded.
proof fn lemma_comment_scan(src: Seq<u8>, j: int, last_start: int, buf: Option<Seq<u8>>)
    requires
        0 <= j <= src.len(),
    ensures
        scan_rest(src, j, last_start, buf, true) == scan_rest(
            src,
            comment_end(src, j),
            comment_end(src, j),
            None,
            false,
        ),
    decreases src.len() - j,
{
    if j >= src.len() {
        assert(word_value(src, src.len() as int, None, src.len() as int) =~= Seq::<u8>::empty());
    } else if src[j] == NEWLINE {
    } else {
        lemma_comment_scan(src, j + 1, last_start, buf);
    }
}

proof fn lemma_prepend_assoc(
    a: Seq<TokenModel>,
    b: Seq<TokenModel>,
    r: Result<Seq<TokenModel>, LexError>,
)
    ensures
        prepend_toks(a, prepend_toks(b, r)) == prepend_toks(a + b, r),
{
    match r {
        Ok(ts) => {
            assert(a + (b + ts) =~= (a + b) + ts);
        },
        Err(_) => {},
    }
}

/// Copies `src[a..b]` into an owned buffer.
fn copy_range(src: &[u8], a: usize, b: usize) -> (r: Vec<u8>)
    requires
        a <= b <= src@.len(),
    ensures
        r@ == src@.subrange(a as int, b as int),
{
    let mut r: Vec<u8> = Vec::new();
    let mut k: usize = a;
    while k < b
        invariant
            a <= k <= b <= src@.len(),
            r@ == src@.subrange(a as int, k as int),
        decreases b - k,
    {
        r.push(src[k]);
        k = k + 1;
        proof {
            assert(src@.subrange(a as int, k as int) =~= src@.subrange(a as int, k - 1).push(
                src@[k - 1],
            ));
        }
    }
    r
}

/// The scanner: an explicit cursor over the source, the tokens committed so
/// far, the start of the word being accumulated, and the owned buffer that
/// word switched to at its first escape, if any.
pub struct Lexer<'a> {
    pub source_id: u32,
    pub src: &'a [u8],
    pub pos: usize,
    pub tokens: Vec<Token>,
    pub cloned_escaped: Option<Vec<u8>>,
    pub last_start: u32,
    pub model: Ghost<Seq<TokenModel>>,
}

impl<'a> Lexer<'a> {
    pub open spec fn buf_view(self) -> Option<Seq<u8>> {
        match self.cloned_escaped {
            None => None,
            Some(v) => Some(v@),
        }
    }

    pub open spec fn wf(self) -> bool {
        &&& self.src@.len() <= u32::MAX
        &&& self.pos <= self.src@.len()
        &&& self.last_start as int <= self.pos as int
        &&& (self.cloned_escaped is Some ==> (self.last_start as int) < self.pos as int)
        &&& self.tokens@.len() == self.model@.len()
        &&& forall|k: int|
            0 <= k < self.model@.len() ==> token_matches(
                #[trigger] self.tokens@[k],
                self.model@[k],
                self.source_id,
            )
    }

    /// The tokens still to come, from the cursor to the end of the source.
    pub open spec fn rest(self) -> Result<Seq<TokenModel>, LexError> {
        scan_rest(self.src@, self.pos as int, self.last_start as int, self.buf_view(), false)
    }

    /// Everything the whole scan yields: the tokens already committed
    /// followed by whatever the remaining bytes produce.
    pub open spec fn total(self) -> Result<Seq<TokenModel>, LexError> {
        prepend_toks(self.model@, self.rest())
    }

    pub fn span_start_end(&self, start: u32, end: u32) -> (s: Span)
        ensures
            s.source_id == self.source_id,
            s.start == start,
            s.end == end,
    {
        Span { source_id: self.source_id, start, end }
    }

    /// Ends the word that ran up to `i`: drops it if it is empty, starts a
    /// comment if its first byte is `#`, and otherwise emits it as a token.
    pub fn commit(&mut self, i: u32)
        requires
            old(self).wf(),
            old(self).last_start <= i,
            i as usize <= old(self).pos,
            (i as usize) < old(self).pos || i as usize == old(self).src@.len(),
        ensures
            final(self).wf(),
            final(self).src == old(self).src,
            final(self).source_id == old(self).source_id,
            final(self).cloned_escaped is None,
            final(self).pos >= old(self).pos,
            final(self).tokens@.len() >= old(self).tokens@.len(),
            ({
                let w = word_value(
                    old(self).src@,
                    old(self).last_start as int,
                    old(self).buf_view(),
                    i as int,
                );
                if starts_comment(w) {
                    &&& final(self).model@ == old(self).model@
                    &&& final(self).pos as int == comment_end(old(self).src@, old(self).pos as int)
                    &&& final(self).last_start as int == final(self).pos as int
                } else {
                    &&& final(self).model@ == old(self).model@ + commit_toks(
                        old(self).src@,
                        old(self).last_start as int,
                        old(self).buf_view(),
                        i as int,
                    )
                    &&& final(self).pos == old(self).pos
                    &&& final(self).last_start as int == (if (i as int) < old(self).src@.len() {
                        i as int + 1
                    } else {
                        old(self).src@.len() as int
                    })
                }
            }),
    {
        let value: Vec<u8> = match self.cloned_escaped.take() {
            None => copy_range(self.src, self.last_start as usize, i as usize),
            Some(cloned) => cloned,
        };
        let ghost m = TokenModel {
            value: value@,
            start: self.last_start as int,
            end: i as int,
            materialized: old(self).buf_view() is Some,
        };
        if value.len() == 0 {
            self.last_start = i;
            if (i as usize) < self.src.len() {
                self.last_start = i + 1;
            }
            assert(self.model@ =~= old(self).model@ + commit_toks(
                old(self).src@,
                old(self).last_start as int,
                old(self).buf_view(),
                i as int,
            ));
            return ;
        }
        let span = self.span_start_end(self.last_start, i);
        let token = Token { value, restriction: Restriction::No, span };
        self.finish_word(i, token, Ghost(m));
        proof {
            let w = word_value(
                old(self).src@,
                old(self).last_start as int,
                old(self).buf_view(),
                i as int,
            );
            if !starts_comment(w) {
                assert(old(self).model@.push(m) =~= old(self).model@ + commit_toks(
                    old(self).src@,
                    old(self).last_start as int,
                    old(self).buf_view(),
                    i as int,
                ));
            }
        }
    }

    /// Takes a committed, non-empty word: a word beginning with `#` starts a
    /// comment, whose bytes are discarded through the next newline; any
    /// other word is pushed as a token.
    pub fn finish_word(&mut self, i: u32, token: Token, m: Ghost<TokenModel>)
        requires
            old(self).wf(),
            old(self).cloned_escaped is None,
            old(self).last_start <= i,
            i as usize <= old(self).pos,
            (i as usize) < old(self).pos || i as usize == old(self).src@.len(),
            token_matches(token, m@, old(self).source_id),
            m@.start == old(self).last_start as int,
            m@.end == i as int,
            m@.value.len() > 0,
        ensures
            final(self).wf(),
            final(self).src == old(self).src,
            final(self).source_id == old(self).source_id,
            final(self).cloned_escaped is None,
            final(self).pos >= old(self).pos,
            final(self).tokens@.len() >= old(self).tokens@.len(),
            if starts_comment(m@.value) {
                &&& final(self).model@ == old(self).model@
                &&& final(self).pos as int == comment_end(old(self).src@, old(self).pos as int)
                &&& final(self).last_start as int == final(self).pos as int
            } else {
                &&& final(self).model@ == old(self).model@.push(m@)
                &&& final(self).pos == old(self).pos
                &&& final(self).last_start as int == (if (i as int) < old(self).src@.len() {
                    i as int + 1
                } else {
                    old(self).src@.len() as int
                })
            },
    {
        if token.value[0] == HASH {
            // Comment: discard everything through the next newline.
            let ghost start_pos = self.pos as int;
            let ghost pre = *self;
            proof {
                lemma_comment_end_bounds(self.src@, start_pos);
            }
            let mut done = false;
            while !done && self.pos < self.src.len()
                invariant
                    pre.wf(),
                    self.src == pre.src,
                    self.source_id == pre.source_id,
                    self.tokens == pre.tokens,
                    self.model == pre.model,
                    self.cloned_escaped == pre.cloned_escaped,
                    self.last_start == pre.last_start,
                    0 <= start_pos <= self.pos as int,
                    self.pos <= self.src@.len(),
                    !done ==> comment_end(self.src@, start_pos) == comment_end(
                        self.src@,
                        self.pos as int,
                    ),
                    done ==> comment_end(self.src@, start_pos) == self.pos as int,
                decreases self.src@.len() - self.pos + (if done {
                    0int
                } else {
                    1int
                }),
            {
                let b = self.src[self.pos];
                self.pos = self.pos + 1;
                if b == NEWLINE {
                    done = true;
                }
            }
            self.last_start = self.pos as u32;
        } else {
            self.last_start = i;
            if (i as usize) < self.src.len() {
                self.last_start = i + 1;
            }
            self.tokens.push(token);
            proof {
                self.model@ = self.model@.push(m@);
            }
        }
    }

    /// Handles the byte `b` found at offset `i`; the cursor already stands
    /// one past it.  A metacharacter commits the current word, a backslash
    /// consumes and escapes the byte after it, and any other byte extends
    /// the word.
    pub fn handle_char(&mut self, i: u32, b: u8) -> (r: Result<(), LexError>)
        requires
            old(self).wf(),
            old(self).pos == i as usize + 1,
            (i as usize) < old(self).src@.len(),
            b == old(self).src@[i as int],
            old(self).last_start <= i,
        ensures
            final(self).wf(),
            final(self).src == old(self).src,
            final(self).source_id == old(self).source_id,
            final(self).pos >= old(self).pos,
            match r {
                Ok(()) => prepend_toks(
                    old(self).model@,
                    scan_rest(
                        old(self).src@,
                        i as int,
                        old(self).last_start as int,
                        old(self).buf_view(),
                        false,
                    ),
                ) == final(self).total(),
                Err(e) => scan_rest(
                    old(self).src@,
                    i as int,
                    old(self).last_start as int,
                    old(self).buf_view(),
                    false,
                ) == Err::<Seq<TokenModel>, LexError>(e),
            },
            ({
                // The step effect, branch by branch.
                let src = old(self).src@;
                let w = word_value(src, old(self).last_start as int, old(self).buf_view(), i as int);
                match r {
                    Ok(()) => {
                        if is_meta(b) {
                            let committed = if starts_comment(w) {
                                old(self).model@
                            } else {
                                old(self).model@ + commit_toks(
                                    src,
                                    old(self).last_start as int,
                                    old(self).buf_view(),
                                    i as int,
                                )
                            };
                            &&& final(self).model@ == (if is_whitespace(b) {
                                committed
                            } else {
                                committed.push(meta_tok(src, i as int))
                            })
                            &&& final(self).cloned_escaped is None
                            &&& (if starts_comment(w) {
                                final(self).pos as int == comment_end(src, i as int + 1)
                                    && final(self).last_start as int == final(self).pos as int
                            } else {
                                final(self).pos == i as usize + 1 && final(self).last_start as int
                                    == i as int + 1
                            })
                        } else if b == BACKSLASH {
                            &&& final(self).model@ == old(self).model@
                            &&& final(self).tokens@ == old(self).tokens@
                            &&& final(self).pos == i as usize + 2
                            &&& final(self).last_start == old(self).last_start
                            &&& final(self).buf_view() == Some(
                                if src[i as int + 1] == NEWLINE {
                                    w
                                } else {
                                    w.push(src[i as int + 1])
                                },
                            )
                        } else {
                            &&& final(self).model@ == old(self).model@
                            &&& final(self).tokens@ == old(self).tokens@
                            &&& final(self).pos == old(self).pos
                            &&& final(self).last_start == old(self).last_start
                            &&& final(self).buf_view() == (match old(self).buf_view() {
                                None => None,
                                Some(x) => Some(x.push(b)),
                            })
                        }
                    },
                    Err(_) => {
                        &&& final(self).model@ == old(self).model@
                        &&& final(self).tokens@ == old(self).tokens@
                        &&& final(self).pos == old(self).pos
                        &&& final(self).last_start == old(self).last_start
                        &&& final(self).cloned_escaped == old(self).cloned_escaped
                    },
                }
            }),
    {
        let ghost w = word_value(
            old(self).src@,
            old(self).last_start as int,
            old(self).buf_view(),
            i as int,
        );
        if is_metacharacter(b) {
            self.commit(i);
            if b != SPACE && b != TAB && b != NEWLINE {
                let value = copy_range(self.src, i as usize, i as usize + 1);
                let span = self.span_start_end(i, i + 1);
                assert(value@ =~= seq![self.src@[i as int]]);
                self.tokens.push(Token { value, restriction: Restriction::No, span });
                proof {
                    self.model@ = self.model@.push(meta_tok(self.src@, i as int));
                }
            }
            proof {
                let src = self.src@;
                let committed = commit_toks(
                    src,
                    old(self).last_start as int,
                    old(self).buf_view(),
                    i as int,
                );
                let with_meta = if is_whitespace(b) {
                    committed
                } else {
                    committed + seq![meta_tok(src, i as int)]
                };
                assert(self.model@ =~= old(self).model@ + with_meta);
                if starts_comment(w) {
                    lemma_comment_scan(src, i as int + 1, i as int + 1, None);
                }
                lemma_prepend_assoc(old(self).model@, with_meta, self.rest());
            }
            Ok(())
        } else if b == BACKSLASH {
            if self.pos >= self.src.len() {
                return Err(LexError::TrailingBackslash);
            }
            let next = self.src[self.pos];
            self.pos = self.pos + 1;
            match &mut self.cloned_escaped {
                Some(clone_escaped) => {
                    if next != NEWLINE {
                        clone_escaped.push(next);
                    }
                },
                None => {
                    let mut value = copy_range(self.src, self.last_start as usize, i as usize);
                    if next != NEWLINE {
                        value.push(next);
                    }
                    self.cloned_escaped = Some(value);
                },
            }
            Ok(())
        } else {
            match &mut self.cloned_escaped {
                Some(cloned_escaped) => {
                    cloned_escaped.push(b);
                },
                None => {},
            }
            Ok(())
        }
    }
}

/// Scans a whole source buffer into its tokens, or reports why it cannot
/// be scanned.  The result is exactly what [`spec_lex`] describes.
pub fn lex(source_id: u32, src: &[u8]) -> (r: Result<Vec<Token>, LexError>)
    ensures
        match (r, spec_lex(src@)) {
            (Ok(toks), Ok(models)) => toks@.len() == models.len() && forall|k: int|
                0 <= k < models.len() ==> token_matches(#[trigger] toks@[k], models[k], source_id),
            (Err(e1), Err(e2)) => e1 == e2,
            _ => false,
        },
{
    if src.len() > u32::MAX as usize {
        return Err(LexError::SourceTooLarge);
    }
    let mut lexer = Lexer {
        source_id,
        src,
        pos: 0,
        tokens: Vec::new(),
        cloned_escaped: None,
        last_start: 0,
        model: Ghost(Seq::empty()),
    };
    assert(lexer.model@ + Seq::<TokenModel>::empty() =~= lexer.model@);
    while lexer.pos < src.len()
        invariant
            lexer.wf(),
            lexer.src == src,
            lexer.source_id == source_id,
            src@.len() <= u32::MAX,
            lexer.total() == scan_rest(src@, 0, 0, None, false),
        decreases src@.len() - lexer.pos,
    {
        let i = lexer.pos;
        let b = src[i];
        lexer.pos = i + 1;
        match lexer.handle_char(i as u32, b) {
            Ok(()) => {},
            Err(e) => {
                return Err(e);
            },
        }
    }
    if (lexer.last_start as usize) != src.len() {
        lexer.commit(src.len() as u32);
    }
    proof {
        assert(word_value(src@, src@.len() as int, lexer.buf_view(), src@.len() as int)
            =~= match lexer.buf_view() {
            None => Seq::<u8>::empty(),
            Some(b) => b,
        });
        assert(lexer.model@ + Seq::<TokenModel>::empty() =~= lexer.model@);
    }
    Ok(lexer.tokens)
}

/// What holds of every emitted token: it is never empty, its span lies
/// inside the source, and — the round-trip guarantee — when no escape forced
/// the word into an owned buffer, its bytes are the verbatim source slice at
/// its span.
pub open spec fn token_model_wf(src: Seq<u8>, m: TokenModel) -> bool {
    &&& m.value.len() > 0
    &&& 0 <= m.start <= m.end <= src.len()
    &&& (!m.materialized ==> m.value == src.subrange(m.start, m.end))
    &&& forall|k: int| 0 <= k < m.value.len() ==> (#[trigger] m.value[k]) != NEWLINE
}

proof fn lemma_scan_tokens_wf(
    src: Seq<u8>,
    i: int,
    last_start: int,
    buf: Option<Seq<u8>>,
    in_comment: bool,
)
    requires
        0 <= last_start <= i <= src.len(),
        match buf {
            Some(b) => forall|k: int| 0 <= k < b.len() ==> (#[trigger] b[k]) != NEWLINE,
            None => true,
        },
        !in_comment && buf is None ==> forall|k: int|
            last_start <= k < i ==> !is_meta(#[trigger] src[k]) && src[k] != BACKSLASH,
    ensures
        match scan_rest(src, i, last_start, buf, in_comment) {
            Ok(ts) => {
                &&& forall|k: int| 0 <= k < ts.len() ==> token_model_wf(src, #[trigger] ts[k])
                &&& forall|k: int|
                    0 <= k < ts.len() ==> (#[trigger] ts[k]).start >= (if in_comment {
                        i
                    } else {
                        last_start
                    })
                &&& forall|j: int, k: int|
                    0 <= j < k < ts.len() ==> (#[trigger] ts[j]).end <= (#[trigger] ts[k]).start
            },
            Err(_) => true,
        },
    decreases src.len() - i,
{
    if i >= src.len() {
    } else if in_comment {
        if src[i] == NEWLINE {
            lemma_scan_tokens_wf(src, i + 1, i + 1, None, false);
        } else {
            lemma_scan_tokens_wf(src, i + 1, last_start, buf, true);
        }
    } else if is_meta(src[i]) {
        let w = word_value(src, last_start, buf, i);
        lemma_scan_tokens_wf(src, i + 1, i + 1, None, starts_comment(w));
        assert(seq![src[i]] =~= src.subrange(i, i + 1));
    } else if src[i] == BACKSLASH {
        if i + 1 < src.len() {
            let base = word_value(src, last_start, buf, i);
            let nb = if src[i + 1] == NEWLINE {
                base
            } else {
                base.push(src[i + 1])
            };
            lemma_scan_tokens_wf(src, i + 2, last_start, Some(nb), false);
        }
    } else {
        let nb = match buf {
            None => None,
            Some(b) => Some(b.push(src[i])),
        };
        lemma_scan_tokens_wf(src, i + 1, last_start, nb, false);
    }
}

/// Round trip: every token of a successful scan is non-empty, spans a
/// range inside the source, holds no newline byte (so no un-collapsed
/// backslash-newline continuation), and — when its value was produced
/// without escape materialization — equals the verbatim source slice at its
/// span.  Tokens come in source order: their spans never overlap.
pub proof fn lemma_round_trip(src: Seq<u8>)
    ensures
        match spec_lex(src) {
            Ok(ts) => {
                &&& forall|k: int| 0 <= k < ts.len() ==> token_model_wf(src, #[trigger] ts[k])
                &&& forall|j: int, k: int|
                    0 <= j < k < ts.len() ==> (#[trigger] ts[j]).end <= (#[trigger] ts[k]).start
            },
            Err(_) => true,
        },
{
    if src.len() <= u32::MAX {
        lemma_scan_tokens_wf(src, 0, 0, None, false);
    }
}

/// A word that lexing passes through unchanged: non-empty, no metacharacter
/// or backslash among its bytes, and no leading `#`.
pub open spec fn plain_word(w: Seq<u8>) -> bool {
    &&& w.len() > 0
    &&& w[0] != HASH
    &&& forall|k: int| 0 <= k < w.len() ==> !is_meta(#[trigger] w[k]) && w[k] != BACKSLASH
}

/// Bytes that are neither metacharacters nor backslashes only extend the
/// current word: scanning moves over them without changing anything else.
proof fn lemma_scan_plain_to(src: Seq<u8>, i: int, j: int, last_start: int)
    requires
        0 <= last_start <= i <= j <= src.len(),
        forall|k: int| i <= k < j ==> !is_meta(#[trigger] src[k]) && src[k] != BACKSLASH,
    ensures
        scan_rest(src, i, last_start, None, false) == scan_rest(src, j, last_start, None, false),
    decreases j - i,
{
    if i < j {
        lemma_scan_plain_to(src, i + 1, j, last_start);
    }
}

/// A source that holds one plain word lexes to exactly one token: the whole
/// input, verbatim.
pub proof fn lemma_single_word(src: Seq<u8>)
    requires
        src.len() <= u32::MAX,
        plain_word(src),
    ensures
        spec_lex(src) == Ok::<Seq<TokenModel>, LexError>(
            seq![
                TokenModel {
                    value: src,
                    start: 0,
                    end: src.len() as int,
                    materialized: false,
                },
            ],
        ),
{
    lemma_scan_plain_to(src, 0, src.len() as int, 0);
    assert(src.subrange(0, src.len() as int) =~= src);
}

pub open spec fn no_hash(w: Seq<u8>) -> bool {
    forall|k: int| 0 <= k < w.len() ==> (#[trigger] w[k]) != HASH
}

/// Walking towards an odd run of backslashes at the end of the source, the
/// scan must reach the last byte in word mode and fail there.  `run` is the
/// start of that maximal trailing run; the parity condition says the cursor
/// can only enter the run at its start and then hops over whole escapes.
proof fn lemma_scan_trailing_backslash(
    src: Seq<u8>,
    i: int,
    last_start: int,
    buf: Option<Seq<u8>>,
    run: int,
)
    requires
        0 <= run < src.len(),
        forall|k: int| run <= k < src.len() ==> (#[trigger] src[k]) == BACKSLASH,
        (src.len() - run) % 2 == 1,
        run > 0 ==> src[run - 1] != BACKSLASH,
        no_hash(src),
        0 <= last_start <= i <= src.len() - 1,
        i >= run ==> (i - run) % 2 == 0,
        match buf {
            Some(b) => no_hash(b),
            None => true,
        },
    ensures
        scan_rest(src, i, last_start, buf, false) == Err::<Seq<TokenModel>, LexError>(
            LexError::TrailingBackslash,
        ),
    decreases src.len() - i,
{
    let len = src.len() as int;
    if i == len - 1 {
        assert(src[i] == BACKSLASH);
    } else if is_meta(src[i]) {
        // A word boundary; the committed word holds no `#`, so no comment
        // starts and the scan goes on from the next byte.
        let w = word_value(src, last_start, buf, i);
        assert(!starts_comment(w));
        lemma_scan_trailing_backslash(src, i + 1, i + 1, None, run);
    } else if src[i] == BACKSLASH {
        let base = word_value(src, last_start, buf, i);
        let nb = if src[i + 1] == NEWLINE {
            base
        } else {
            base.push(src[i + 1])
        };
        assert(i != run - 1);
        lemma_scan_trailing_backslash(src, i + 2, last_start, Some(nb), run);
    } else {
        let nb = match buf {
            None => None,
            Some(b) => Some(b.push(src[i])),
        };
        lemma_scan_trailing_backslash(src, i + 1, last_start, nb, run);
    }
}

/// A trailing unescaped backslash is always a lexing failure, never a
/// committed token: when a source without `#` (so no comment can swallow the
/// end of the input) ends in a maximal run of backslashes of odd length —
/// an even run escapes itself pairwise — lexing fails.
pub proof fn lemma_trailing_backslash(src: Seq<u8>, run: int)
    requires
        0 < src.len() <= u32::MAX,
        no_hash(src),
        0 <= run < src.len(),
        forall|k: int| run <= k < src.len() ==> (#[trigger] src[k]) == BACKSLASH,
        (src.len() - run) % 2 == 1,
        run > 0 ==> src[run - 1] != BACKSLASH,
    ensures
        spec_lex(src) == Err::<Seq<TokenModel>, LexError>(LexError::TrailingBackslash),
{
    lemma_scan_trailing_backslash(src, 0, 0, None, run);
}

/// The words of `vals` joined by single spaces.
pub open spec fn join_words(vals: Seq<Seq<u8>>) -> Seq<u8>
    decreases vals.len(),
{
    if vals.len() == 0 {
        Seq::empty()
    } else if vals.len() == 1 {
        vals[0]
    } else {
        vals[0] + seq![SPACE] + join_words(vals.drop_first())
    }
}

proof fn lemma_scan_join(src: Seq<u8>, p: int, vals: Seq<Seq<u8>>)
    requires
        0 <= p <= src.len(),
        src.subrange(p, src.len() as int) == join_words(vals),
        vals.len() > 0,
        forall|j: int| 0 <= j < vals.len() ==> plain_word(#[trigger] vals[j]),
    ensures
        match scan_rest(src, p, p, None, false) {
            Ok(ts) => ts.len() == vals.len() && forall|j: int|
                0 <= j < vals.len() ==> (#[trigger] ts[j]).value == vals[j]
                    && !ts[j].materialized,
            Err(_) => false,
        },
    decreases vals.len(),
{
    let len = src.len() as int;
    let w = vals[0];
    let e = p + w.len() as int;
    let tail = join_words(vals.drop_first());
    if vals.len() == 1 {
        assert(e == len);
        assert forall|k: int| p <= k < len implies !is_meta(#[trigger] src[k]) && src[k]
            != BACKSLASH by {
            assert(src[k] == src.subrange(p, len)[k - p]);
            assert(src.subrange(p, len)[k - p] == w[k - p]);
        }
        lemma_scan_plain_to(src, p, len, p);
        assert(word_value(src, p, None, len) =~= w);
    } else {
        assert(src.subrange(p, len) == w + seq![SPACE] + tail);
        assert((w + seq![SPACE] + tail).len() == w.len() + 1 + tail.len());
        assert(e < len);
        assert forall|k: int| p <= k < e implies !is_meta(#[trigger] src[k]) && src[k]
            != BACKSLASH by {
            assert(src[k] == src.subrange(p, len)[k - p]);
            assert((w + seq![SPACE] + tail)[k - p] == (w + seq![SPACE])[k - p]);
            assert((w + seq![SPACE])[k - p] == w[k - p]);
        }
        lemma_scan_plain_to(src, p, e, p);
        assert(src[e] == src.subrange(p, len)[e - p]);
        assert((w + seq![SPACE] + tail)[e - p] == (w + seq![SPACE])[e - p]);
        assert(src[e] == SPACE);
        assert(word_value(src, p, None, e) =~= w);
        assert forall|k: int| 0 <= k < len - (e + 1) implies #[trigger] src.subrange(e + 1, len)[k]
            == tail[k] by {
            assert(src.subrange(e + 1, len)[k] == src[e + 1 + k]);
            assert(src[e + 1 + k] == src.subrange(p, len)[e + 1 + k - p]);
            assert((w + seq![SPACE] + tail)[w.len() + 1 + k] == tail[k]);
        }
        assert(src.subrange(e + 1, len) =~= tail);
        lemma_scan_join(src, e + 1, vals.drop_first());
        let committed = commit_toks(src, p, None, e);
        assert(committed == seq![
            TokenModel { value: w, start: p, end: e, materialized: false },
        ]);
        match scan_rest(src, e + 1, e + 1, None, false) {
            Ok(ts2) => {
                let all = committed + ts2;
                assert(all.len() == vals.len());
                assert(forall|j: int|
                    1 <= j < all.len() ==> (#[trigger] all[j]) == ts2[j - 1]);
                assert(forall|j: int|
                    0 <= j < vals.len() ==> (#[trigger] all[j]).value == vals[j]
                        && !all[j].materialized);
            },
            Err(_) => {
                assert(false);
            },
        }
    }
}

/// Idempotence of re-lexing: the token values of a lex contain no empty
/// word, and when every one of them is a plain word — no metacharacter or
/// backslash inside, no leading `#` — lexing their space-joined
/// concatenation reproduces exactly the same sequence of values.
pub proof fn lemma_relex_join(vals: Seq<Seq<u8>>)
    requires
        vals.len() > 0,
        join_words(vals).len() <= u32::MAX,
        forall|j: int| 0 <= j < vals.len() ==> plain_word(#[trigger] vals[j]),
    ensures
        match spec_lex(join_words(vals)) {
            Ok(ts) => ts.len() == vals.len() && forall|j: int|
                0 <= j < vals.len() ==> (#[trigger] ts[j]).value == vals[j]
                    && !ts[j].materialized,
            Err(_) => false,
        },
{
    let src = join_words(vals);
    assert(src.subrange(0, src.len() as int) =~= src);
    lemma_scan_join(src, 0, vals);
}

/// How one list element is joined to the next.
#[derive(Clone, Copy, Debug, PartialEq, Eq, Structural)]
pub enum Terminator {
    /// `;` — run the next element unconditionally.
    Sequential,
    /// `&` — the element before this one runs in the background.
    Background,
    /// `&&` — run the next element only if the previous one succeeded.
    And,
    /// `||` — run the next element only if the previous one failed.
    Or,
}

/// One simple command: its program word followed by its argument words.
/// A simple command emitted by a parser is never empty.
pub struct SimpleCommand {
    pub tokens: Vec<Token>,
    /// Redirection specifications: each the operator token (`<` or `>`)
    /// with its target word.  Stored as an attribute list; applying them is
    /// a later layer's work.
    pub redirections: Vec<(Token, Token)>,
}

/// `a | b | c`: each stage's standard output feeds the next stage's
/// standard input.
pub struct Pipeline {
    pub initial: SimpleCommand,
    pub rest: Vec<SimpleCommand>,
}

/// Pipelines chained left to right, each introduced by the terminator that
/// ended the element before it.
pub struct ListCommand {
    pub initial: Pipeline,
    pub rest: Vec<(Terminator, Pipeline)>,
}

/// A possibly negated, possibly timed pipeline chain.  `terminator` is the
/// trailing operator, if any: a trailing `&` sends the last pipeline to the
/// background.
pub struct SingleCommand {
    pub exclamation: bool,
    pub time: bool,
    pub terminator: Option<Terminator>,
    pub initial: Pipeline,
    pub rest: Vec<(Terminator, Pipeline)>,
}

/// The three command kinds: a pipeline chain, a subshell group, and a brace
/// group run in the current context.
pub enum Command {
    Single(SingleCommand),
    Subshell(ListCommand),
    Block(ListCommand),
}

/// Every stage of the pipeline has a program word.
pub open spec fn pipeline_wf(p: Pipeline) -> bool {
    &&& p.initial.tokens@.len() > 0
    &&& forall|k: int| 0 <= k < p.rest@.len() ==> (#[trigger] p.rest@[k]).tokens@.len() > 0
}

pub open spec fn chain_wf(initial: Pipeline, rest: Seq<(Terminator, Pipeline)>) -> bool {
    &&& pipeline_wf(initial)
    &&& forall|k: int| 0 <= k < rest.len() ==> pipeline_wf((#[trigger] rest[k]).1)
}

/// The invariant of every command a parser emits: no simple command is
/// empty.
pub open spec fn command_wf(c: Command) -> bool {
    match c {
        Command::Single(sc) => chain_wf(sc.initial, sc.rest@),
        Command::Subshell(lc) => chain_wf(lc.initial, lc.rest@),
        Command::Block(lc) => chain_wf(lc.initial, lc.rest@),
    }
}

/// A malformed token sequence, carrying the span of the offending token (or
/// of the operator left dangling at the end of the input).
#[derive(Clone, Copy, Debug, PartialEq, Eq, Structural)]
pub struct SyntaxError {
    pub span: Span,
}

pub const BANG: u8 = 33;

pub const LEFT_BRACE: u8 = 123;

pub const RIGHT_BRACE: u8 = 125;

/// An operator token as the lexer emits one: a single metacharacter byte
/// spanning exactly one source byte.  A word that merely spells an operator
/// (an escaped `;`, say) is materialized and spans at least two bytes, so it
/// is never mistaken for one.
pub open spec fn is_op_tok(t: Token) -> bool {
    &&& t.value@.len() == 1
    &&& is_meta(t.value@[0])
    &&& t.span.end as int == t.span.start as int + 1
}

pub open spec fn is_bang_tok(t: Token) -> bool {
    t.value@ == seq![BANG]
}

/// The reserved word `time`.
pub open spec fn is_time_tok(t: Token) -> bool {
    t.value@ == seq![116u8, 105u8, 109u8, 101u8]
}

/// An unescaped `{` or `}`: one brace byte spanning one source byte.
pub open spec fn is_lbrace_tok(t: Token) -> bool {
    t.value@ == seq![LEFT_BRACE] && t.span.end as int == t.span.start as int + 1
}

pub open spec fn is_rbrace_tok(t: Token) -> bool {
    t.value@ == seq![RIGHT_BRACE] && t.span.end as int == t.span.start as int + 1
}

/// Two tokens written back to back in the source, with nothing between:
/// how `&&` and `||` appear, since the lexer emits each byte on its own.
pub open spec fn adjacent(a: Token, b: Token) -> bool {
    a.span.end == b.span.start
}

/// One pipeline stage as the parser sees it: its words and its redirection
/// list.
pub struct StageModel {
    pub words: Seq<Token>,
    pub redirs: Seq<(Token, Token)>,
}

/// Specification-level image of one parsed pipeline chain: the flags, the
/// trailing terminator, and each element as the terminator joining it to
/// the element before it together with its stages.
pub struct ChainModel {
    pub exclamation: bool,
    pub time: bool,
    pub trailing: Option<Terminator>,
    pub elements: Seq<(Terminator, Seq<StageModel>)>,
}

/// One parsed command: a pipeline chain, or a group — a subshell (`(...)`)
/// or a brace block (`{ ...; }`) — holding its list elements.
pub enum CommandModel {
    Chain(ChainModel),
    Group { subshell: bool, elements: Seq<(Terminator, Seq<StageModel>)> },
}

pub open spec fn stage_model(sc: SimpleCommand) -> StageModel {
    StageModel { words: sc.tokens@, redirs: sc.redirections@ }
}

pub open spec fn stages_model(stages: Seq<SimpleCommand>) -> Seq<StageModel> {
    stages.map_values(|sc: SimpleCommand| stage_model(sc))
}

/// The stages of a pipeline.
pub open spec fn pipe_stages(p: Pipeline) -> Seq<StageModel> {
    seq![stage_model(p.initial)] + p.rest@.map_values(|sc: SimpleCommand| stage_model(sc))
}

/// The chain elements an initial pipeline and a rest list stand for.
pub open spec fn chain_model(initial_p: Option<Pipeline>, rest_p: Seq<(Terminator, Pipeline)>) -> Seq<
    (Terminator, Seq<StageModel>),
> {
    match initial_p {
        None => Seq::empty(),
        Some(p) => seq![(Terminator::Sequential, pipe_stages(p))] + rest_p.map_values(
            |e: (Terminator, Pipeline)| (e.0, pipe_stages(e.1)),
        ),
    }
}

/// What a command is, as the parser's model describes one.
pub open spec fn command_model(c: Command) -> CommandModel {
    match c {
        Command::Single(sc) => CommandModel::Chain(
            ChainModel {
                exclamation: sc.exclamation,
                time: sc.time,
                trailing: sc.terminator,
                elements: chain_model(Some(sc.initial), sc.rest@),
            },
        ),
        Command::Subshell(lc) => CommandModel::Group {
            subshell: true,
            elements: chain_model(Some(lc.initial), lc.rest@),
        },
        Command::Block(lc) => CommandModel::Group {
            subshell: false,
            elements: chain_model(Some(lc.initial), lc.rest@),
        },
    }
}

/// The parser's scan state: the commands already finished, the open group
/// if any (its kind and its opening span), the current chain's flags, the
/// join terminator of the element being built, a terminator consumed but
/// not yet followed by its element, the words and redirections of the stage
/// being built, the completed stages of the pipeline being built, the
/// completed elements, whether a lone `;` may follow (right after a closed
/// group), and the span to blame when the input ends too early.
pub struct ParseState {
    pub exclamation: bool,
    pub time: bool,
    pub cur_join: Terminator,
    pub pending: Option<Terminator>,
    pub words: Seq<Token>,
    pub redirs: Seq<(Token, Token)>,
    pub stages: Seq<StageModel>,
    pub chain: Seq<(Terminator, Seq<StageModel>)>,
    pub group: Option<(bool, Span)>,
    pub done: Seq<CommandModel>,
    pub sep_ok: bool,
    pub mark: Span,
}

pub open spec fn init_parse_state() -> ParseState {
    ParseState {
        exclamation: false,
        time: false,
        cur_join: Terminator::Sequential,
        pending: None,
        words: Seq::empty(),
        redirs: Seq::empty(),
        stages: Seq::empty(),
        chain: Seq::empty(),
        group: None,
        done: Seq::empty(),
        sep_ok: false,
        mark: Span { source_id: 0, start: 0, end: 0 },
    }
}

pub open spec fn cur_stage(st: ParseState) -> StageModel {
    StageModel { words: st.words, redirs: st.redirs }
}

/// Closing the element under construction when terminator `term` is read at
/// token `t`: the current stage must have at least one word.
pub open spec fn close_element(st: ParseState, term: Terminator, t: Token) -> ParseState {
    ParseState {
        pending: Some(term),
        words: Seq::empty(),
        redirs: Seq::empty(),
        stages: Seq::empty(),
        chain: st.chain.push((st.cur_join, st.stages.push(cur_stage(st)))),
        sep_ok: false,
        mark: t.span,
        ..st
    }
}

/// The current chain as a finished command.
pub open spec fn chain_command(st: ParseState, trailing: Option<Terminator>) -> CommandModel {
    CommandModel::Chain(
        ChainModel {
            exclamation: st.exclamation,
            time: st.time,
            trailing,
            elements: st.chain,
        },
    )
}

/// A group may open here: at the start of a command, outside any group,
/// with no dangling `&&`/`||` and no flags that would have nothing to apply
/// to once the chain before it (if any) is closed.
pub open spec fn can_open_group(st: ParseState) -> bool {
    &&& st.group is None
    &&& st.words.len() == 0
    &&& st.stages.len() == 0
    &&& (st.chain.len() > 0 || (!st.exclamation && !st.time))
    &&& (match st.pending {
        Some(Terminator::And) => false,
        Some(Terminator::Or) => false,
        _ => true,
    })
}

/// Opening a group at token `t` closes the chain before it, if one is open,
/// and starts with a clean slate inside.
pub open spec fn open_group(st: ParseState, subshell: bool, t: Token) -> ParseState {
    let done2 = if st.chain.len() > 0 {
        st.done.push(chain_command(st, st.pending))
    } else {
        st.done
    };
    ParseState {
        exclamation: false,
        time: false,
        cur_join: Terminator::Sequential,
        pending: None,
        words: Seq::empty(),
        redirs: Seq::empty(),
        stages: Seq::empty(),
        chain: Seq::empty(),
        group: Some((subshell, t.span)),
        done: done2,
        sep_ok: false,
        mark: t.span,
    }
}

/// Closing a group at token `t` emits it and allows one `;` to follow.
pub open spec fn finish_group(
    st: ParseState,
    subshell: bool,
    elements: Seq<(Terminator, Seq<StageModel>)>,
    t: Token,
) -> ParseState {
    ParseState {
        exclamation: false,
        time: false,
        cur_join: Terminator::Sequential,
        pending: None,
        words: Seq::empty(),
        redirs: Seq::empty(),
        stages: Seq::empty(),
        chain: Seq::empty(),
        group: None,
        done: st.done.push(CommandModel::Group { subshell, elements }),
        sep_ok: true,
        mark: t.span,
    }
}

/// The grammar: what parsing the tokens from position `i` onward, in state
/// `st`, yields — the command list, or the span of the offending token.
/// `&&` and `||` are an ampersand or bar written immediately twice; `!` and
/// `time` are recognized only before the first command word of a top-level
/// chain; `<` and `>` attach the word after them to the current command as
/// a redirection; `( ... )` is a subshell group and `{ ...; }` a brace
/// block, each holding a plain list (spec-model lists carry no flags, no
/// trailing terminator, and no nested group); an unmatched or empty group,
/// a brace block without a separator before `}`, and every other misplaced
/// operator are syntax errors.
pub open spec fn parse_rest(toks: Seq<Token>, i: int, st: ParseState) -> Result<
    Seq<CommandModel>,
    Span,
>
    decreases toks.len() - i,
{
    if i >= toks.len() {
        match st.group {
            Some((_, open_span)) => Err(open_span),
            None => {
                if st.words.len() > 0 {
                    Ok(
                        st.done.push(
                            CommandModel::Chain(
                                ChainModel {
                                    exclamation: st.exclamation,
                                    time: st.time,
                                    trailing: None,
                                    elements: st.chain.push(
                                        (st.cur_join, st.stages.push(cur_stage(st))),
                                    ),
                                },
                            ),
                        ),
                    )
                } else if st.stages.len() > 0 {
                    // The input ends right after a `|`.
                    Err(st.mark)
                } else if st.chain.len() == 0 {
                    if st.exclamation || st.time {
                        // `!` or `time` with no pipeline to apply to.
                        Err(st.mark)
                    } else {
                        Ok(st.done)
                    }
                } else {
                    match st.pending {
                        Some(Terminator::And) => Err(st.mark),
                        Some(Terminator::Or) => Err(st.mark),
                        _ => Ok(st.done.push(chain_command(st, st.pending))),
                    }
                }
            },
        }
    } else {
        let t = toks[i];
        if is_op_tok(t) {
            let c = t.value@[0];
            if c == PIPE {
                if i + 1 < toks.len() && is_op_tok(toks[i + 1]) && toks[i + 1].value@[0] == PIPE
                    && adjacent(t, toks[i + 1]) {
                    if st.words.len() == 0 {
                        Err(t.span)
                    } else {
                        parse_rest(toks, i + 2, close_element(st, Terminator::Or, t))
                    }
                } else {
                    if st.words.len() == 0 {
                        Err(t.span)
                    } else {
                        parse_rest(
                            toks,
                            i + 1,
                            ParseState {
                                words: Seq::empty(),
                                redirs: Seq::empty(),
                                stages: st.stages.push(cur_stage(st)),
                                sep_ok: false,
                                mark: t.span,
                                ..st
                            },
                        )
                    }
                }
            } else if c == AMPERSAND {
                let (term, n) = if i + 1 < toks.len() && is_op_tok(toks[i + 1]) && toks[i
                    + 1].value@[0] == AMPERSAND && adjacent(t, toks[i + 1]) {
                    (Terminator::And, 2int)
                } else {
                    (Terminator::Background, 1int)
                };
                if st.words.len() == 0 {
                    Err(t.span)
                } else {
                    parse_rest(toks, i + n, close_element(st, term, t))
                }
            } else if c == SEMICOLON {
                if st.words.len() > 0 {
                    parse_rest(toks, i + 1, close_element(st, Terminator::Sequential, t))
                } else if st.sep_ok {
                    // The one place a bare `;` is allowed: right after a
                    // closed group.
                    parse_rest(toks, i + 1, ParseState { sep_ok: false, mark: t.span, ..st })
                } else {
                    Err(t.span)
                }
            } else if c == LEFT_PAREN {
                if can_open_group(st) {
                    parse_rest(toks, i + 1, open_group(st, true, t))
                } else {
                    Err(t.span)
                }
            } else if c == RIGHT_PAREN {
                match st.group {
                    Some((true, _)) => {
                        if st.words.len() > 0 {
                            parse_rest(
                                toks,
                                i + 1,
                                finish_group(
                                    st,
                                    true,
                                    st.chain.push((st.cur_join, st.stages.push(cur_stage(st)))),
                                    t,
                                ),
                            )
                        } else if st.stages.len() == 0 && st.chain.len() > 0 && st.pending
                            == Some(Terminator::Sequential) {
                            // `(a; )`: a trailing `;` inside the group.
                            parse_rest(toks, i + 1, finish_group(st, true, st.chain, t))
                        } else {
                            Err(t.span)
                        }
                    },
                    _ => Err(t.span),
                }
            } else if c == LESS_THAN || c == GREATER_THAN {
                // A redirection: the word after the operator is its target.
                if st.words.len() == 0 {
                    Err(t.span)
                } else if i + 1 < toks.len() && !is_op_tok(toks[i + 1]) {
                    parse_rest(
                        toks,
                        i + 2,
                        ParseState {
                            redirs: st.redirs.push((t, toks[i + 1])),
                            sep_ok: false,
                            mark: t.span,
                            ..st
                        },
                    )
                } else {
                    Err(t.span)
                }
            } else {
                Err(t.span)
            }
        } else {
            if is_lbrace_tok(t) && st.words.len() == 0 {
                if can_open_group(st) {
                    parse_rest(toks, i + 1, open_group(st, false, t))
                } else {
                    Err(t.span)
                }
            } else if is_rbrace_tok(t) && st.words.len() == 0 {
                // A block must hold a complete list ended by `;` or `&`
                // immediately before the `}`.
                match st.group {
                    Some((false, _)) => {
                        if st.stages.len() == 0 && st.chain.len() > 0 && (st.pending
                            == Some(Terminator::Sequential) || st.pending == Some(
                            Terminator::Background,
                        )) {
                            parse_rest(toks, i + 1, finish_group(st, false, st.chain, t))
                        } else {
                            Err(t.span)
                        }
                    },
                    _ => Err(t.span),
                }
            } else if st.words.len() == 0 && st.stages.len() == 0 && (is_bang_tok(t)
                || is_time_tok(t)) {
                // Chain flags; a second `!` toggles the negation back off.
                if st.group is None && st.chain.len() == 0 {
                    parse_rest(
                        toks,
                        i + 1,
                        ParseState {
                            exclamation: if is_bang_tok(t) {
                                !st.exclamation
                            } else {
                                st.exclamation
                            },
                            time: st.time || is_time_tok(t),
                            sep_ok: false,
                            mark: t.span,
                            ..st
                        },
                    )
                } else {
                    Err(t.span)
                }
            } else if st.words.len() == 0 && st.stages.len() == 0 {
                // Fresh element: its first word takes the pending join.
                let join = match st.pending {
                    Some(tm) => tm,
                    None => st.cur_join,
                };
                parse_rest(
                    toks,
                    i + 1,
                    ParseState {
                        cur_join: join,
                        pending: None,
                        words: seq![t],
                        sep_ok: false,
                        ..st
                    },
                )
            } else {
                parse_rest(toks, i + 1, ParseState { words: st.words.push(t), sep_ok: false, ..st })
            }
        }
    }
}

pub open spec fn spec_parse(toks: Seq<Token>) -> Result<Seq<CommandModel>, Span> {
    parse_rest(toks, 0, init_parse_state())
}

fn tok_is_op(t: &Token) -> (b: bool)
    ensures
        b == is_op_tok(*t),
{
    t.value.len() == 1 && is_metacharacter(t.value[0]) && t.span.end > t.span.start && t.span.end
        - t.span.start == 1
}

fn tok_is_bang(t: &Token) -> (b: bool)
    ensures
        b == is_bang_tok(*t),
{
    let r = t.value.len() == 1 && t.value[0] == BANG;
    proof {
        if r {
            assert(t.value@ =~= seq![BANG]);
        }
    }
    r
}

fn tok_is_time(t: &Token) -> (b: bool)
    ensures
        b == is_time_tok(*t),
{
    let r = t.value.len() == 4 && t.value[0] == 116 && t.value[1] == 105 && t.value[2] == 109
        && t.value[3] == 101;
    proof {
        if r {
            assert(t.value@ =~= seq![116u8, 105u8, 109u8, 101u8]);
        }
    }
    r
}

fn tok_is_lbrace(t: &Token) -> (b: bool)
    ensures
        b == is_lbrace_tok(*t),
{
    let r = t.value.len() == 1 && t.value[0] == LEFT_BRACE && t.span.end > t.span.start
        && t.span.end - t.span.start == 1;
    proof {
        if r {
            assert(t.value@ =~= seq![LEFT_BRACE]);
        }
    }
    r
}

fn tok_is_rbrace(t: &Token) -> (b: bool)
    ensures
        b == is_rbrace_tok(*t),
{
    let r = t.value.len() == 1 && t.value[0] == RIGHT_BRACE && t.span.end > t.span.start
        && t.span.end - t.span.start == 1;
    proof {
        if r {
            assert(t.value@ =~= seq![RIGHT_BRACE]);
        }
    }
    r
}

fn build_pipeline(words: Vec<Token>, redirs: Vec<(Token, Token)>, stages: Vec<SimpleCommand>) -> (p:
    Pipeline)
    requires
        words@.len() > 0,
        forall|j: int| 0 <= j < stages@.len() ==> (#[trigger] stages@[j]).tokens@.len() > 0,
    ensures
        pipe_stages(p) == stages_model(stages@).push(StageModel { words: words@, redirs: redirs@ }),
        pipeline_wf(p),
{
    let ghost s0 = stages@;
    let ghost w0 = words@;
    let ghost r0 = redirs@;
    let mut s = stages;
    s.push(SimpleCommand { tokens: words, redirections: redirs });
    let first = s.remove(0);
    let p = Pipeline { initial: first, rest: s };
    proof {
        let pushed = s0.push(SimpleCommand { tokens: words, redirections: redirs });
        let target = stages_model(s0).push(StageModel { words: w0, redirs: r0 });
        assert forall|k: int| 0 <= k < target.len() implies #[trigger] pipe_stages(p)[k]
            == target[k] by {
            if k > 0 {
                assert(p.rest@[k - 1] == pushed.remove(0)[k - 1]);
            }
        }
        assert(pipe_stages(p) =~= target);
    }
    p
}

fn push_element(
    initial_p: Option<Pipeline>,
    rest_p: Vec<(Terminator, Pipeline)>,
    cur_join: Terminator,
    words: Vec<Token>,
    redirs: Vec<(Token, Token)>,
    stages: Vec<SimpleCommand>,
) -> (r: (Pipeline, Vec<(Terminator, Pipeline)>))
    requires
        words@.len() > 0,
        forall|j: int| 0 <= j < stages@.len() ==> (#[trigger] stages@[j]).tokens@.len() > 0,
        initial_p is None ==> rest_p@.len() == 0 && cur_join == Terminator::Sequential,
        match initial_p {
            Some(p0) => pipeline_wf(p0),
            None => true,
        },
        forall|k: int| 0 <= k < rest_p@.len() ==> pipeline_wf((#[trigger] rest_p@[k]).1),
    ensures
        chain_model(Some(r.0), r.1@) == chain_model(initial_p, rest_p@).push(
            (cur_join, stages_model(stages@).push(StageModel { words: words@, redirs: redirs@ })),
        ),
        pipeline_wf(r.0),
        forall|k: int| 0 <= k < r.1@.len() ==> pipeline_wf((#[trigger] r.1@[k]).1),
{
    let p = build_pipeline(words, redirs, stages);
    match initial_p {
        None => {
            proof {
                assert(chain_model(Some(p), rest_p@) =~= chain_model(
                    None::<Pipeline>,
                    rest_p@,
                ).push((cur_join, pipe_stages(p))));
            }
            (p, rest_p)
        },
        Some(p0) => {
            let ghost r0 = rest_p@;
            let mut rest_p = rest_p;
            rest_p.push((cur_join, p));
            proof {
                let f = |e: (Terminator, Pipeline)| (e.0, pipe_stages(e.1));
                assert forall|k: int| 0 <= k < rest_p@.len() implies #[trigger] rest_p@.map_values(
                    f,
                )[k] == r0.map_values(f).push((cur_join, pipe_stages(p)))[k] by {
                    if k < r0.len() {
                        assert(rest_p@[k] == r0[k]);
                    }
                }
                assert(rest_p@.map_values(f) =~= r0.map_values(f).push(
                    (cur_join, pipe_stages(p)),
                ));
                assert(chain_model(Some(p0), rest_p@) =~= chain_model(Some(p0), r0).push(
                    (cur_join, pipe_stages(p)),
                ));
            }
            (p0, rest_p)
        },
    }
}

/// The executable parser's state, as the grammar's [`ParseState`] sees it.
pub open spec fn exec_parse_state(
    exclamation: bool,
    time: bool,
    cur_join: Terminator,
    pending: Option<Terminator>,
    words: Seq<Token>,
    redirs: Seq<(Token, Token)>,
    stages: Seq<SimpleCommand>,
    initial_p: Option<Pipeline>,
    rest_p: Seq<(Terminator, Pipeline)>,
    group: Option<(bool, Span)>,
    done: Seq<Command>,
    sep_ok: bool,
    mark: Span,
) -> ParseState {
    ParseState {
        exclamation,
        time,
        cur_join,
        pending,
        words,
        redirs,
        stages: stages_model(stages),
        chain: chain_model(initial_p, rest_p),
        group,
        done: done.map_values(|c: Command| command_model(c)),
        sep_ok,
        mark,
    }
}

/// Consumes the token sequence and produces the command list it spells, or
/// the syntax error that rules it out.  The result is exactly what
/// [`spec_parse`] describes, and every emitted command is well formed.
#[verifier::loop_isolation(false)]
#[verifier::rlimit(100)]
pub fn parse(tokens: Vec<Token>) -> (r: Result<Vec<Command>, SyntaxError>)
    ensures
        match (r, spec_parse(tokens@)) {
            (Ok(cmds), Ok(ms)) => cmds@.map_values(|c: Command| command_model(c)) == ms && forall|
                k: int,
            | 0 <= k < cmds@.len() ==> command_wf(#[trigger] cmds@[k]),
            (Err(e), Err(sp)) => e.span == sp,
            _ => false,
        },
{
    let ghost t0 = tokens@;
    let ghost cm = |c: Command| command_model(c);
    let mut tokens = tokens;
    let mut exclamation = false;
    let mut time_flag = false;
    let mut cur_join = Terminator::Sequential;
    let mut pending: Option<Terminator> = None;
    let mut words: Vec<Token> = Vec::new();
    let mut redirs: Vec<(Token, Token)> = Vec::new();
    let mut stages: Vec<SimpleCommand> = Vec::new();
    let mut initial_p: Option<Pipeline> = None;
    let mut rest_p: Vec<(Terminator, Pipeline)> = Vec::new();
    let mut group: Option<(bool, Span)> = None;
    let mut done: Vec<Command> = Vec::new();
    let mut sep_ok = false;
    let mut mark = Span { source_id: 0, start: 0, end: 0 };
    proof {
        assert(t0.subrange(0, t0.len() as int) =~= t0);
        assert(stages_model(stages@) =~= Seq::<StageModel>::empty());
        assert(done@.map_values(cm) =~= Seq::<CommandModel>::empty());
    }
    while tokens.len() > 0
        invariant
            tokens@.len() <= t0.len(),
            tokens@ == t0.subrange(t0.len() - tokens@.len(), t0.len() as int),
            initial_p is None ==> rest_p@.len() == 0 && cur_join == Terminator::Sequential,
            pending is Some ==> initial_p is Some,
            words@.len() == 0 ==> redirs@.len() == 0,
            forall|j: int| 0 <= j < stages@.len() ==> (#[trigger] stages@[j]).tokens@.len() > 0,
            match initial_p {
                Some(p0) => pipeline_wf(p0),
                None => true,
            },
            forall|k: int| 0 <= k < rest_p@.len() ==> pipeline_wf((#[trigger] rest_p@[k]).1),
            forall|k: int| 0 <= k < done@.len() ==> command_wf(#[trigger] done@[k]),
            parse_rest(
                t0,
                t0.len() - tokens@.len(),
                exec_parse_state(
                    exclamation,
                    time_flag,
                    cur_join,
                    pending,
                    words@,
                    redirs@,
                    stages@,
                    initial_p,
                    rest_p@,
                    group,
                    done@,
                    sep_ok,
                    mark,
                ),
            ) == spec_parse(t0),
        decreases tokens@.len(),
    {
        let ghost i = t0.len() - tokens@.len();
        let ghost st_in = exec_parse_state(
            exclamation,
            time_flag,
            cur_join,
            pending,
            words@,
            redirs@,
            stages@,
            initial_p,
            rest_p@,
            group,
            done@,
            sep_ok,
            mark,
        );
        proof {
            assert(t0.subrange(i, t0.len() as int)[0] == t0[i]);
            assert(tokens@[0] == t0[i]);
            if tokens@.len() > 1 {
                assert(t0.subrange(i, t0.len() as int)[1] == t0[i + 1]);
                assert(tokens@[1] == t0[i + 1]);
            }
        }
        if tok_is_op(&tokens[0]) {
            let c = tokens[0].value[0];
            if c == PIPE {
                let double = tokens.len() > 1 && tok_is_op(&tokens[1]) && tokens[1].value[0]
                    == PIPE && tokens[0].span.end == tokens[1].span.start;
                if words.len() == 0 {
                    return Err(SyntaxError { span: tokens[0].span });
                }
                if double {
                    let t = tokens.remove(0);
                    let _second = tokens.remove(0);
                    proof {
                        assert(tokens@ =~= t0.subrange(i + 2, t0.len() as int));
                    }
                    let w = words;
                    words = Vec::new();
                    let rd = redirs;
                    redirs = Vec::new();
                    let s = stages;
                    stages = Vec::new();
                    let (a, b) = push_element(initial_p, rest_p, cur_join, w, rd, s);
                    initial_p = Some(a);
                    rest_p = b;
                    pending = Some(Terminator::Or);
                    sep_ok = false;
                    mark = t.span;
                    proof {
                        assert(stages_model(stages@) =~= Seq::<StageModel>::empty());
                        assert(exec_parse_state(
                            exclamation,
                            time_flag,
                            cur_join,
                            pending,
                            words@,
                            redirs@,
                            stages@,
                            initial_p,
                            rest_p@,
                            group,
                            done@,
                            sep_ok,
                            mark,
                        ) == close_element(st_in, Terminator::Or, t0[i]));
                    }
                } else {
                    let t = tokens.remove(0);
                    proof {
                        assert(tokens@ =~= t0.subrange(i + 1, t0.len() as int));
                    }
                    let w = words;
                    words = Vec::new();
                    let rd = redirs;
                    redirs = Vec::new();
                    stages.push(SimpleCommand { tokens: w, redirections: rd });
                    sep_ok = false;
                    mark = t.span;
                    proof {
                        let target = st_in.stages.push(cur_stage(st_in));
                        assert forall|k: int| 0 <= k < stages_model(stages@).len() implies
                            #[trigger] stages_model(stages@)[k] == target[k] by {
                            assert(stages_model(stages@)[k] == stage_model(stages@[k]));
                        }
                        assert(stages_model(stages@) =~= target);
                    }
                }
            } else if c == AMPERSAND {
                let double = tokens.len() > 1 && tok_is_op(&tokens[1]) && tokens[1].value[0]
                    == AMPERSAND && tokens[0].span.end == tokens[1].span.start;
                if words.len() == 0 {
                    return Err(SyntaxError { span: tokens[0].span });
                }
                let term = if double {
                    Terminator::And
                } else {
                    Terminator::Background
                };
                let t = tokens.remove(0);
                if double {
                    let _second = tokens.remove(0);
                    proof {
                        assert(tokens@ =~= t0.subrange(i + 2, t0.len() as int));
                    }
                } else {
                    proof {
                        assert(tokens@ =~= t0.subrange(i + 1, t0.len() as int));
                    }
                }
                let w = words;
                words = Vec::new();
                let rd = redirs;
                redirs = Vec::new();
                let s = stages;
                stages = Vec::new();
                let (a, b) = push_element(initial_p, rest_p, cur_join, w, rd, s);
                initial_p = Some(a);
                rest_p = b;
                pending = Some(term);
                sep_ok = false;
                mark = t.span;
                proof {
                    assert(stages_model(stages@) =~= Seq::<StageModel>::empty());
                    assert(exec_parse_state(
                        exclamation,
                        time_flag,
                        cur_join,
                        pending,
                        words@,
                        redirs@,
                        stages@,
                        initial_p,
                        rest_p@,
                        group,
                        done@,
                        sep_ok,
                        mark,
                    ) == close_element(st_in, term, t0[i]));
                }
            } else if c == SEMICOLON {
                if words.len() > 0 {
                    let t = tokens.remove(0);
                    proof {
                        assert(tokens@ =~= t0.subrange(i + 1, t0.len() as int));
                    }
                    let w = words;
                    words = Vec::new();
                    let rd = redirs;
                    redirs = Vec::new();
                    let s = stages;
                    stages = Vec::new();
                    let (a, b) = push_element(initial_p, rest_p, cur_join, w, rd, s);
                    initial_p = Some(a);
                    rest_p = b;
                    pending = Some(Terminator::Sequential);
                    sep_ok = false;
                    mark = t.span;
                    proof {
                        assert(stages_model(stages@) =~= Seq::<StageModel>::empty());
                        assert(exec_parse_state(
                            exclamation,
                            time_flag,
                            cur_join,
                            pending,
                            words@,
                            redirs@,
                            stages@,
                            initial_p,
                            rest_p@,
                            group,
                            done@,
                            sep_ok,
                            mark,
                        ) == close_element(st_in, Terminator::Sequential, t0[i]));
                    }
                } else if sep_ok {
                    let t = tokens.remove(0);
                    proof {
                        assert(tokens@ =~= t0.subrange(i + 1, t0.len() as int));
                    }
                    sep_ok = false;
                    mark = t.span;
                } else {
                    return Err(SyntaxError { span: tokens[0].span });
                }
            } else if c == LEFT_PAREN || c == RIGHT_PAREN {
                let subshell_open = c == LEFT_PAREN;
                if subshell_open {
                    let pending_ok = match pending {
                        Some(Terminator::And) => false,
                        Some(Terminator::Or) => false,
                        _ => true,
                    };
                    let can = group.is_none() && words.len() == 0 && stages.len() == 0 && (
                    initial_p.is_some() || (!exclamation && !time_flag)) && pending_ok;
                    if !can {
                        return Err(SyntaxError { span: tokens[0].span });
                    }
                    let t = tokens.remove(0);
                    proof {
                        assert(tokens@ =~= t0.subrange(i + 1, t0.len() as int));
                    }
                    let ghost done_in = done@;
                    match initial_p {
                        Some(init) => {
                            done.push(
                                Command::Single(
                                    SingleCommand {
                                        exclamation,
                                        time: time_flag,
                                        terminator: pending,
                                        initial: init,
                                        rest: rest_p,
                                    },
                                ),
                            );
                            rest_p = Vec::new();
                        },
                        None => {},
                    }
                    initial_p = None;
                    exclamation = false;
                    time_flag = false;
                    cur_join = Terminator::Sequential;
                    pending = None;
                    group = Some((true, t.span));
                    sep_ok = false;
                    mark = t.span;
                    proof {
                        assert(words@ =~= Seq::<Token>::empty());
                        assert(redirs@ =~= Seq::<(Token, Token)>::empty());
                        assert(stages_model(stages@) =~= Seq::<StageModel>::empty());
                        if st_in.chain.len() > 0 {
                            assert forall|k: int| 0 <= k < done@.len() implies #[trigger] done@
                                .map_values(cm)[k] == st_in.done.push(
                                chain_command(st_in, st_in.pending),
                            )[k] by {
                                if k < done_in.len() {
                                    assert(done@[k] == done_in[k]);
                                }
                            }
                            assert(done@.map_values(cm) =~= st_in.done.push(
                                chain_command(st_in, st_in.pending),
                            ));
                        }
                        assert(exec_parse_state(
                            exclamation,
                            time_flag,
                            cur_join,
                            pending,
                            words@,
                            redirs@,
                            stages@,
                            initial_p,
                            rest_p@,
                            group,
                            done@,
                            sep_ok,
                            mark,
                        ) == open_group(st_in, true, t0[i]));
                    }
                } else {
                    // `)` closes an open subshell group.
                    let is_subshell = match group {
                        Some((true, _)) => true,
                        _ => false,
                    };
                    if !is_subshell {
                        return Err(SyntaxError { span: tokens[0].span });
                    }
                    if words.len() > 0 {
                        let t = tokens.remove(0);
                        proof {
                            assert(tokens@ =~= t0.subrange(i + 1, t0.len() as int));
                        }
                        let w = words;
                        words = Vec::new();
                        let rd = redirs;
                        redirs = Vec::new();
                        let s = stages;
                        stages = Vec::new();
                        let (a, b) = push_element(initial_p, rest_p, cur_join, w, rd, s);
                        let ghost done_in = done@;
                        let ghost elems = chain_model(Some(a), b@);
                        done.push(Command::Subshell(ListCommand { initial: a, rest: b }));
                        initial_p = None;
                        rest_p = Vec::new();
                        exclamation = false;
                        time_flag = false;
                        cur_join = Terminator::Sequential;
                        pending = None;
                        group = None;
                        sep_ok = true;
                        mark = t.span;
                        proof {
                            assert(stages_model(stages@) =~= Seq::<StageModel>::empty());
                            assert forall|k: int| 0 <= k < done@.len() implies #[trigger] done@
                                .map_values(cm)[k] == st_in.done.push(
                                CommandModel::Group { subshell: true, elements: elems },
                            )[k] by {
                                if k < done_in.len() {
                                    assert(done@[k] == done_in[k]);
                                }
                            }
                            assert(done@.map_values(cm) =~= st_in.done.push(
                                CommandModel::Group { subshell: true, elements: elems },
                            ));
                            assert(exec_parse_state(
                                exclamation,
                                time_flag,
                                cur_join,
                                pending,
                                words@,
                                redirs@,
                                stages@,
                                initial_p,
                                rest_p@,
                                group,
                                done@,
                                sep_ok,
                                mark,
                            ) == finish_group(
                                st_in,
                                true,
                                st_in.chain.push((st_in.cur_join, st_in.stages.push(cur_stage(st_in)))),
                                t0[i],
                            ));
                        }
                    } else {
                        let pend_seq = match pending {
                            Some(Terminator::Sequential) => true,
                            _ => false,
                        };
                        if !(stages.len() == 0 && initial_p.is_some() && pend_seq) {
                            return Err(SyntaxError { span: tokens[0].span });
                        }
                        let t = tokens.remove(0);
                        proof {
                            assert(tokens@ =~= t0.subrange(i + 1, t0.len() as int));
                        }
                        let ghost done_in = done@;
                        match initial_p {
                            Some(init) => {
                                done.push(
                                    Command::Subshell(ListCommand { initial: init, rest: rest_p }),
                                );
                                rest_p = Vec::new();
                            },
                            None => {},
                        }
                        initial_p = None;
                        exclamation = false;
                        time_flag = false;
                        cur_join = Terminator::Sequential;
                        pending = None;
                        group = None;
                        sep_ok = true;
                        mark = t.span;
                        proof {
                            assert(words@ =~= Seq::<Token>::empty());
                            assert(redirs@ =~= Seq::<(Token, Token)>::empty());
                            assert(stages_model(stages@) =~= Seq::<StageModel>::empty());
                            assert forall|k: int| 0 <= k < done@.len() implies #[trigger] done@
                                .map_values(cm)[k] == st_in.done.push(
                                CommandModel::Group { subshell: true, elements: st_in.chain },
                            )[k] by {
                                if k < done_in.len() {
                                    assert(done@[k] == done_in[k]);
                                }
                            }
                            assert(done@.map_values(cm) =~= st_in.done.push(
                                CommandModel::Group { subshell: true, elements: st_in.chain },
                            ));
                            assert(exec_parse_state(
                                exclamation,
                                time_flag,
                                cur_join,
                                pending,
                                words@,
                                redirs@,
                                stages@,
                                initial_p,
                                rest_p@,
                                group,
                                done@,
                                sep_ok,
                                mark,
                            ) == finish_group(st_in, true, st_in.chain, t0[i]));
                        }
                    }
                }
            } else if c == LESS_THAN || c == GREATER_THAN {
                if words.len() == 0 {
                    return Err(SyntaxError { span: tokens[0].span });
                }
                let has_target = tokens.len() > 1 && !tok_is_op(&tokens[1]);
                if !has_target {
                    return Err(SyntaxError { span: tokens[0].span });
                }
                let op = tokens.remove(0);
                let target = tokens.remove(0);
                proof {
                    assert(tokens@ =~= t0.subrange(i + 2, t0.len() as int));
                }
                let sp = op.span;
                redirs.push((op, target));
                sep_ok = false;
                mark = sp;
                proof {
                    assert(redirs@ =~= st_in.redirs.push((t0[i], t0[i + 1])));
                }
            } else {
                return Err(SyntaxError { span: tokens[0].span });
            }
        } else {
            let lb = tok_is_lbrace(&tokens[0]);
            let rb = tok_is_rbrace(&tokens[0]);
            if lb && words.len() == 0 {
                let pending_ok = match pending {
                    Some(Terminator::And) => false,
                    Some(Terminator::Or) => false,
                    _ => true,
                };
                let can = group.is_none() && stages.len() == 0 && (initial_p.is_some() || (
                !exclamation && !time_flag)) && pending_ok;
                if !can {
                    return Err(SyntaxError { span: tokens[0].span });
                }
                let t = tokens.remove(0);
                proof {
                    assert(tokens@ =~= t0.subrange(i + 1, t0.len() as int));
                }
                let ghost done_in = done@;
                match initial_p {
                    Some(init) => {
                        done.push(
                            Command::Single(
                                SingleCommand {
                                    exclamation,
                                    time: time_flag,
                                    terminator: pending,
                                    initial: init,
                                    rest: rest_p,
                                },
                            ),
                        );
                        rest_p = Vec::new();
                    },
                    None => {},
                }
                initial_p = None;
                exclamation = false;
                time_flag = false;
                cur_join = Terminator::Sequential;
                pending = None;
                group = Some((false, t.span));
                sep_ok = false;
                mark = t.span;
                proof {
                    assert(words@ =~= Seq::<Token>::empty());
                    assert(redirs@ =~= Seq::<(Token, Token)>::empty());
                    assert(stages_model(stages@) =~= Seq::<StageModel>::empty());
                    if st_in.chain.len() > 0 {
                        assert forall|k: int| 0 <= k < done@.len() implies #[trigger] done@
                            .map_values(cm)[k] == st_in.done.push(
                            chain_command(st_in, st_in.pending),
                        )[k] by {
                            if k < done_in.len() {
                                assert(done@[k] == done_in[k]);
                            }
                        }
                        assert(done@.map_values(cm) =~= st_in.done.push(
                            chain_command(st_in, st_in.pending),
                        ));
                    }
                    assert(exec_parse_state(
                        exclamation,
                        time_flag,
                        cur_join,
                        pending,
                        words@,
                        redirs@,
                        stages@,
                        initial_p,
                        rest_p@,
                        group,
                        done@,
                        sep_ok,
                        mark,
                    ) == open_group(st_in, false, t0[i]));
                }
            } else if rb && words.len() == 0 {
                let is_block = match group {
                    Some((false, _)) => true,
                    _ => false,
                };
                let pend_sep = match pending {
                    Some(Terminator::Sequential) => true,
                    Some(Terminator::Background) => true,
                    _ => false,
                };
                if !(is_block && stages.len() == 0 && initial_p.is_some() && pend_sep) {
                    return Err(SyntaxError { span: tokens[0].span });
                }
                let t = tokens.remove(0);
                proof {
                    assert(tokens@ =~= t0.subrange(i + 1, t0.len() as int));
                }
                let ghost done_in = done@;
                match initial_p {
                    Some(init) => {
                        done.push(Command::Block(ListCommand { initial: init, rest: rest_p }));
                        rest_p = Vec::new();
                    },
                    None => {},
                }
                initial_p = None;
                exclamation = false;
                time_flag = false;
                cur_join = Terminator::Sequential;
                pending = None;
                group = None;
                sep_ok = true;
                mark = t.span;
                proof {
                    assert(words@ =~= Seq::<Token>::empty());
                    assert(redirs@ =~= Seq::<(Token, Token)>::empty());
                    assert(stages_model(stages@) =~= Seq::<StageModel>::empty());
                    assert forall|k: int| 0 <= k < done@.len() implies #[trigger] done@.map_values(
                        cm,
                    )[k] == st_in.done.push(
                        CommandModel::Group { subshell: false, elements: st_in.chain },
                    )[k] by {
                        if k < done_in.len() {
                            assert(done@[k] == done_in[k]);
                        }
                    }
                    assert(done@.map_values(cm) =~= st_in.done.push(
                        CommandModel::Group { subshell: false, elements: st_in.chain },
                    ));
                    assert(exec_parse_state(
                        exclamation,
                        time_flag,
                        cur_join,
                        pending,
                        words@,
                        redirs@,
                        stages@,
                        initial_p,
                        rest_p@,
                        group,
                        done@,
                        sep_ok,
                        mark,
                    ) == finish_group(st_in, false, st_in.chain, t0[i]));
                }
            } else if words.len() == 0 && stages.len() == 0 && (tok_is_bang(&tokens[0])
                || tok_is_time(&tokens[0])) {
                if !(group.is_none() && initial_p.is_none()) {
                    return Err(SyntaxError { span: tokens[0].span });
                }
                let bang = tok_is_bang(&tokens[0]);
                let timew = tok_is_time(&tokens[0]);
                let t = tokens.remove(0);
                proof {
                    assert(tokens@ =~= t0.subrange(i + 1, t0.len() as int));
                }
                if bang {
                    exclamation = !exclamation;
                }
                if timew {
                    time_flag = true;
                }
                sep_ok = false;
                mark = t.span;
            } else if words.len() == 0 && stages.len() == 0 {
                let t = tokens.remove(0);
                proof {
                    assert(tokens@ =~= t0.subrange(i + 1, t0.len() as int));
                }
                match pending {
                    Some(tm) => {
                        cur_join = tm;
                        pending = None;
                    },
                    None => {},
                }
                words.push(t);
                sep_ok = false;
                proof {
                    assert(words@ =~= seq![t0[i]]);
                }
            } else {
                let t = tokens.remove(0);
                proof {
                    assert(tokens@ =~= t0.subrange(i + 1, t0.len() as int));
                }
                words.push(t);
                sep_ok = false;
            }
        }
    }
    proof {
        assert(t0.subrange(t0.len() as int, t0.len() as int) =~= Seq::<Token>::empty());
    }
    match group {
        Some((_, sp)) => {
            return Err(SyntaxError { span: sp });
        },
        None => {},
    }
    if words.len() > 0 {
        let ghost done_in = done@;
        let ghost st_end = exec_parse_state(
            exclamation,
            time_flag,
            cur_join,
            pending,
            words@,
            redirs@,
            stages@,
            initial_p,
            rest_p@,
            group,
            done@,
            sep_ok,
            mark,
        );
        let (a, b) = push_element(initial_p, rest_p, cur_join, words, redirs, stages);
        let cmd = Command::Single(
            SingleCommand {
                exclamation,
                time: time_flag,
                terminator: None,
                initial: a,
                rest: b,
            },
        );
        proof {
            assert(command_wf(cmd));
        }
        done.push(cmd);
        proof {
            let m = CommandModel::Chain(
                ChainModel {
                    exclamation: st_end.exclamation,
                    time: st_end.time,
                    trailing: None,
                    elements: st_end.chain.push((st_end.cur_join, st_end.stages.push(cur_stage(st_end)))),
                },
            );
            assert forall|k: int| 0 <= k < done@.len() implies #[trigger] done@.map_values(cm)[k]
                == st_end.done.push(m)[k] by {
                if k < done_in.len() {
                    assert(done@[k] == done_in[k]);
                }
            }
            assert(done@.map_values(cm) =~= st_end.done.push(m));
        }
        return Ok(done);
    }
    if stages.len() > 0 {
        return Err(SyntaxError { span: mark });
    }
    match initial_p {
        None => {
            if exclamation || time_flag {
                Err(SyntaxError { span: mark })
            } else {
                Ok(done)
            }
        },
        Some(initial) => {
            match pending {
                Some(Terminator::And) => Err(SyntaxError { span: mark }),
                Some(Terminator::Or) => Err(SyntaxError { span: mark }),
                _ => {
                    let ghost done_in = done@;
                    let ghost st_end = exec_parse_state(
                        exclamation,
                        time_flag,
                        cur_join,
                        pending,
                        words@,
                        redirs@,
                        stages@,
                        Some(initial),
                        rest_p@,
                        group,
                        done@,
                        sep_ok,
                        mark,
                    );
                    let cmd = Command::Single(
                        SingleCommand {
                            exclamation,
                            time: time_flag,
                            terminator: pending,
                            initial,
                            rest: rest_p,
                        },
                    );
                    proof {
                        assert(command_wf(cmd));
                    }
                    done.push(cmd);
                    proof {
                        let m = chain_command(st_end, st_end.pending);
                        assert forall|k: int| 0 <= k < done@.len() implies #[trigger] done@
                            .map_values(cm)[k] == st_end.done.push(m)[k] by {
                            if k < done_in.len() {
                                assert(done@[k] == done_in[k]);
                            }
                        }
                        assert(done@.map_values(cm) =~= st_end.done.push(m));
                    }
                    Ok(done)
                },
            }
        },
    }
}

} // verus!
