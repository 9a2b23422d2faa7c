//! A character-level lexer for the expression language: peek/advance
//! over a buffered character sequence, with whitespace skipping and
//! operator recognition.

use vstd::prelude::*;
use vstd::string::StrSliceExecFns;

verus! {

/// The operator kinds the lexer recognizes.
#[derive(Clone, Copy, Debug, PartialEq, Eq, Structural)]
pub enum OperandKind {
    Add,
    Min,
    Neg,
    Mul,
    Div,
    Pow,
    Abs,
}

/// Relies on char::is_whitespace: whether the character has the Unicode
/// White_Space property, a function of the character alone.
pub uninterp spec fn is_space(c: char) -> bool;

/// Relies on char::is_whitespace, named by `is_space`.
#[verifier::external_body]
fn char_is_whitespace(c: char) -> (r: bool)
    ensures
        r == is_space(c),
{
    c.is_whitespace()
}

/// Whether `c` is one of the operator characters the lexer accepts.
pub open spec fn is_op_char(c: char) -> bool {
    c == '+' || c == '-' || c == '*' || c == '/' || c == '^'
}

/// The operator kind written as character `c`.
pub open spec fn op_kind_of(c: char) -> OperandKind {
    if c == '+' {
        OperandKind::Add
    } else if c == '-' {
        OperandKind::Min
    } else if c == '*' {
        OperandKind::Mul
    } else if c == '/' {
        OperandKind::Div
    } else {
        OperandKind::Pow
    }
}

/// The first position at or after `p` that does not hold whitespace.
pub open spec fn skip_ws(s: Seq<char>, p: int) -> int
    decreases s.len() - p,
{
    if 0 <= p < s.len() && is_space(s[p]) {
        skip_ws(s, p + 1)
    } else {
        p
    }
}

/// Skipping whitespace never moves backwards and stops at the first
/// non-whitespace position, every position skipped over holding
/// whitespace.
pub proof fn lemma_skip_ws_bounds(s: Seq<char>, p: int)
    requires
        0 <= p <= s.len(),
    ensures
        p <= skip_ws(s, p) <= s.len(),
        forall|k: int| p <= k < skip_ws(s, p) ==> is_space(#[trigger] s[k]),
        skip_ws(s, p) < s.len() ==> !is_space(s[skip_ws(s, p)]),
    decreases s.len() - p,
{
    if p < s.len() && is_space(s[p]) {
        lemma_skip_ws_bounds(s, p + 1);
    }
}

/// A cursor over a buffered sequence of characters.
pub struct Lexer {
    input: Vec<char>,
    position: usize,
}

impl Lexer {
    /// The characters being read.
    pub closed spec fn text(&self) -> Seq<char> {
        self.input@
    }

    /// The cursor: index of the next character to hand out.
    pub closed spec fn pos(&self) -> int {
        self.position as int
    }

    /// Well-formed: the cursor never passes the end of the input.
    pub open spec fn wf(&self) -> bool {
        0 <= self.pos() <= self.text().len()
    }

    /// A lexer over the characters of `input`, cursor at the start.
    pub fn new(input: &str) -> (lx: Lexer)
        ensures
            lx.wf(),
            lx.text() == input@,
            lx.pos() == 0,
    {
        let n: usize = input.unicode_len();
        let mut chars: Vec<char> = Vec::new();
        let mut i: usize = 0;
        while i < n
            invariant
                i <= n,
                n == input@.len(),
                chars@ == input@.subrange(0, i as int),
            decreases n - i,
        {
            chars.push(input.get_char(i));
            proof {
                assert(chars@ =~= input@.subrange(0, i + 1));
            }
            i = i + 1;
        }
        proof {
            assert(chars@ =~= input@);
        }
        Lexer { input: chars, position: 0 }
    }

    /// The character under the cursor, if any, without advancing.
    pub fn peek(&self) -> (r: Option<char>)
        requires
            self.wf(),
        ensures
            r == if self.pos() < self.text().len() {
                Some(self.text()[self.pos()])
            } else {
                None::<char>
            },
    {
        if self.position < self.input.len() {
            Some(self.input[self.position])
        } else {
            None
        }
    }

    /// The character under the cursor, advancing past it; `None` at the
    /// end of the input, which leaves the cursor in place.
    pub fn next(&mut self) -> (r: Option<char>)
        requires
            old(self).wf(),
        ensures
            final(self).wf(),
            final(self).text() == old(self).text(),
            r == if old(self).pos() < old(self).text().len() {
                Some(old(self).text()[old(self).pos()])
            } else {
                None::<char>
            },
            final(self).pos() == if old(self).pos() < old(self).text().len() {
                old(self).pos() + 1
            } else {
                old(self).pos()
            },
    {
        let next = self.peek();
        if next.is_some() {
            proof {
                assert(self.position < self.input.len());
            }
            self.position = self.position + 1;
        }
        next
    }

    /// Advance the cursor past every whitespace character under it.
    pub fn consume_whitespace(&mut self)
        requires
            old(self).wf(),
        ensures
            final(self).wf(),
            final(self).text() == old(self).text(),
            final(self).pos() == skip_ws(old(self).text(), old(self).pos()),
    {
        while self.position < self.input.len() && char_is_whitespace(self.input[self.position])
            invariant
                self.wf(),
                self.text() == old(self).text(),
                old(self).pos() <= self.pos(),
                skip_ws(self.text(), old(self).pos()) == skip_ws(self.text(), self.pos()),
            decreases self.text().len() - self.pos(),
        {
            self.position = self.position + 1;
        }
    }

    /// Skip whitespace, then read one operator character. The input must
    /// hold one of `+ - * / ^` at the first non-whitespace position.
    pub fn consume_operand(&mut self) -> (r: OperandKind)
        requires
            old(self).wf(),
            skip_ws(old(self).text(), old(self).pos()) < old(self).text().len(),
            is_op_char(old(self).text()[skip_ws(old(self).text(), old(self).pos())]),
        ensures
            final(self).wf(),
            final(self).text() == old(self).text(),
            final(self).pos() == skip_ws(old(self).text(), old(self).pos()) + 1,
            r == op_kind_of(old(self).text()[skip_ws(old(self).text(), old(self).pos())]),
    {
        proof {
            lemma_skip_ws_bounds(old(self).text(), old(self).pos());
        }
        self.consume_whitespace();
        let c_opt = self.next();
        let c = c_opt.unwrap();
        match c {
            '+' => OperandKind::Add,
            '-' => OperandKind::Min,
            '*' => OperandKind::Mul,
            '/' => OperandKind::Div,
            '^' => OperandKind::Pow,
            _ => {
                proof {
                    assert(false);
                }
                OperandKind::Abs
            },
        }
    }
}

} // verus!
