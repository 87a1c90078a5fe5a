//! Reading the schedule: the input text, cut into lines, each line cut into
//! whitespace-separated decimal numbers.
use vstd::prelude::*;

verus! {

/// The byte that ends a line.
pub const NEWLINE: u8 = 10;

/// Why a number could not be read.
#[derive(Clone, Copy, Debug, PartialEq, Eq)]
pub enum ParseError {
    /// The line holds no further number.
    MissingToken,
    /// A token is not a decimal number that fits in a `u32`.
    InvalidNumber,
}

/// ASCII whitespace: space, and tab through carriage return.
pub open spec fn is_space(b: u8) -> bool {
    b == 32 || (9 <= b && b <= 13)
}

pub open spec fn is_digit(b: u8) -> bool {
    48 <= b && b <= 57
}

/// How many bytes precede the first newline of `s` (all of them if none).
pub open spec fn line_len(s: Seq<u8>) -> nat
    decreases s.len(),
{
    if s.len() == 0 || s[0] == NEWLINE {
        0
    } else {
        1 + line_len(s.drop_first())
    }
}

/// The first line of `s`, without its newline.
pub open spec fn first_line(s: Seq<u8>) -> Seq<u8> {
    s.take(line_len(s) as int)
}

/// What follows the first line of `s` and its newline.
pub open spec fn after_line(s: Seq<u8>) -> Seq<u8> {
    if line_len(s) < s.len() {
        s.skip(line_len(s) + 1int)
    } else {
        Seq::empty()
    }
}

/// How many bytes at the front of `s` are not whitespace.
pub open spec fn token_len(s: Seq<u8>) -> nat
    decreases s.len(),
{
    if s.len() == 0 || is_space(s[0]) {
        0
    } else {
        1 + token_len(s.drop_first())
    }
}

/// The first token of `s` and what follows it; `None` where `s` holds only
/// whitespace.
pub open spec fn next_token(s: Seq<u8>) -> Option<(Seq<u8>, Seq<u8>)>
    decreases s.len(),
{
    if s.len() == 0 {
        None
    } else if is_space(s[0]) {
        next_token(s.drop_first())
    } else {
        Some((s.take(token_len(s) as int), s.skip(token_len(s) as int)))
    }
}

pub open spec fn all_digits(s: Seq<u8>) -> bool {
    forall|i: int| 0 <= i < s.len() ==> is_digit(#[trigger] s[i])
}

/// The value of a string of decimal digits.
pub open spec fn digits_value(s: Seq<u8>) -> nat
    decreases s.len(),
{
    if s.len() == 0 {
        0
    } else {
        digits_value(s.drop_last()) * 10 + (s.last() - 48) as nat
    }
}

/// The number that a token spells, where it is one that fits in a `u32`.
pub open spec fn parse_number(tok: Seq<u8>) -> Option<u32> {
    if tok.len() > 0 && all_digits(tok) && digits_value(tok) <= u32::MAX {
        Some(digits_value(tok) as u32)
    } else {
        None
    }
}

proof fn lemma_token_len(s: Seq<u8>)
    ensures
        token_len(s) <= s.len(),
        s.len() > 0 && !is_space(s[0]) ==> token_len(s) >= 1,
    decreases s.len(),
{
    if s.len() > 0 && !is_space(s[0]) {
        lemma_token_len(s.drop_first());
    }
}

/// A token is never empty, and what follows it is shorter than the text.
pub proof fn lemma_next_token_shrinks(s: Seq<u8>)
    ensures
        next_token(s) matches Some((t, a)) ==> t.len() >= 1 && a.len() < s.len(),
    decreases s.len(),
{
    if s.len() > 0 {
        if is_space(s[0]) {
            lemma_next_token_shrinks(s.drop_first());
        } else {
            lemma_token_len(s);
        }
    }
}

/// The numbers of a line, in order; an error at the first token that is not
/// a number.
pub open spec fn parse_all(s: Seq<u8>) -> Result<Seq<u32>, ParseError>
    decreases s.len(),
{
    match next_token(s) {
        None => Ok(Seq::empty()),
        Some((tok, after)) => {
            proof {
                lemma_next_token_shrinks(s);
            }
            match parse_number(tok) {
                None => Err(ParseError::InvalidNumber),
                Some(v) => match parse_all(after) {
                    Ok(rest) => Ok(seq![v].add(rest)),
                    Err(e) => Err(e),
                },
            }
        },
    }
}

proof fn lemma_digits_prefix(s: Seq<u8>, k: int)
    requires
        0 <= k <= s.len(),
        all_digits(s),
    ensures
        digits_value(s.take(k)) <= digits_value(s),
    decreases s.len(),
{
    if k < s.len() {
        let p = s.drop_last();
        assert(p.take(k) =~= s.take(k));
        lemma_digits_prefix(p, k);
    } else {
        assert(s.take(k) =~= s);
    }
}

/// What reading one number from `s` gives.
pub open spec fn number_of(s: Seq<u8>) -> Result<u32, ParseError> {
    match next_token(s) {
        None => Err(ParseError::MissingToken),
        Some((tok, _)) => match parse_number(tok) {
            Some(v) => Ok(v),
            None => Err(ParseError::InvalidNumber),
        },
    }
}

/// What is left of `s` once one number has been read from it.
pub open spec fn after_number(s: Seq<u8>) -> Seq<u8> {
    match next_token(s) {
        None => Seq::empty(),
        Some((_, after)) => after,
    }
}

/// What reading two numbers from `s` gives: the first error, if any.
pub open spec fn pair_of(s: Seq<u8>) -> Result<(u32, u32), ParseError> {
    match number_of(s) {
        Err(e) => Err(e),
        Ok(x) => match number_of(after_number(s)) {
            Err(e) => Err(e),
            Ok(y) => Ok((x, y)),
        },
    }
}

fn is_space_byte(b: u8) -> (r: bool)
    ensures
        r == is_space(b),
{
    b == 32 || (9 <= b && b <= 13)
}

/// The input text and how much of it has been read.
pub struct Input {
    pub data: Vec<u8>,
    pub pos: usize,
}

impl Input {
    pub open spec fn wf(&self) -> bool {
        self.pos <= self.data@.len()
    }

    /// The part of the text not read yet.
    pub open spec fn rest(&self) -> Seq<u8> {
        self.data@.skip(self.pos as int)
    }

    /// Reading `inner` from its first byte.
    pub fn new(inner: Vec<u8>) -> (r: Input)
        ensures
            r.wf(),
            r.rest() == inner@,
    {
        let r = Input { data: inner, pos: 0 };
        assert(r.rest() =~= r.data@);
        r
    }

    /// The next line, without its newline; the newline is consumed too. At
    /// the end of the text the line is empty.
    pub fn line(&mut self) -> (r: Line)
        requires
            old(self).wf(),
        ensures
            final(self).wf(),
            r.wf(),
            r.rest() == first_line(old(self).rest()),
            final(self).rest() == after_line(old(self).rest()),
    {
        let ghost s = self.rest();
        let n = self.data.len();
        let start = self.pos;
        let mut i: usize = start;
        let mut bytes: Vec<u8> = Vec::new();
        while i < n && self.data[i] != NEWLINE
            invariant
                start <= i <= n,
                n == self.data@.len(),
                s == self.data@.skip(start as int),
                line_len(s) == (i - start) + line_len(self.data@.skip(i as int)),
                bytes@ == self.data@.subrange(start as int, i as int),
            decreases n - i,
        {
            assert(self.data@.skip(i as int).drop_first() =~= self.data@.skip(i + 1));
            bytes.push(self.data[i]);
            i = i + 1;
            assert(bytes@ =~= self.data@.subrange(start as int, i as int));
        }
        assert(line_len(self.data@.skip(i as int)) == 0);
        assert(bytes@ =~= s.take(line_len(s) as int));
        if i < n {
            self.pos = i + 1;
            assert(self.rest() =~= s.skip(line_len(s) + 1int));
        } else {
            self.pos = n;
            assert(self.rest() =~= Seq::<u8>::empty());
        }
        let r = Line { bytes, pos: 0 };
        assert(r.rest() =~= r.bytes@);
        r
    }
}

/// One line of the input and how much of it has been read.
pub struct Line {
    pub bytes: Vec<u8>,
    pub pos: usize,
}

impl Line {
    pub open spec fn wf(&self) -> bool {
        self.pos <= self.bytes@.len()
    }

    /// The part of the line not read yet.
    pub open spec fn rest(&self) -> Seq<u8> {
        self.bytes@.skip(self.pos as int)
    }

    /// A line that holds `bytes`, read from its first byte.
    pub fn from_bytes(bytes: Vec<u8>) -> (r: Line)
        ensures
            r.wf(),
            r.rest() == bytes@,
    {
        let r = Line { bytes, pos: 0 };
        assert(r.rest() =~= r.bytes@);
        r
    }

    /// Reads the next number of the line. Where the next token is not a
    /// number the token is consumed and `InvalidNumber` returned.
    pub fn next(&mut self) -> (r: Result<u32, ParseError>)
        requires
            old(self).wf(),
        ensures
            final(self).wf(),
            final(self).bytes@ == old(self).bytes@,
            r == number_of(old(self).rest()),
            final(self).rest() == after_number(old(self).rest()),
    {
        let ghost s = self.rest();
        let n = self.bytes.len();
        let mut i: usize = self.pos;
        while i < n && is_space_byte(self.bytes[i])
            invariant
                self.wf(),
                n == self.bytes@.len(),
                self.pos <= i <= n,
                s == self.rest(),
                next_token(s) == next_token(self.bytes@.skip(i as int)),
            decreases n - i,
        {
            assert(self.bytes@.skip(i as int).drop_first() =~= self.bytes@.skip(i + 1));
            i = i + 1;
        }
        if i == n {
            self.pos = n;
            assert(self.bytes@.skip(i as int) =~= Seq::<u8>::empty());
            assert(self.rest() =~= Seq::<u8>::empty());
            return Err(ParseError::MissingToken);
        }
        let ghost t = self.bytes@.skip(i as int);
        proof {
            lemma_token_len(t);
        }
        let mut e: usize = i;
        while e < n && !is_space_byte(self.bytes[e])
            invariant
                i <= e <= n,
                n == self.bytes@.len(),
                t == self.bytes@.skip(i as int),
                token_len(t) == (e - i) + token_len(self.bytes@.skip(e as int)),
            decreases n - e,
        {
            assert(self.bytes@.skip(e as int).drop_first() =~= self.bytes@.skip(e + 1));
            e = e + 1;
        }
        let ghost tok = self.bytes@.subrange(i as int, e as int);
        assert(token_len(self.bytes@.skip(e as int)) == 0);
        assert(t.take(token_len(t) as int) =~= tok);
        assert(t.skip(token_len(t) as int) =~= self.bytes@.skip(e as int));
        self.pos = e;
        assert(next_token(s) == Some((tok, self.rest())));
        let mut acc: u64 = 0;
        let mut k: usize = i;
        while k < e
            invariant
                i <= k <= e <= n,
                n == self.bytes@.len(),
                tok == self.bytes@.subrange(i as int, e as int),
                acc == digits_value(self.bytes@.subrange(i as int, k as int)),
                all_digits(self.bytes@.subrange(i as int, k as int)),
                acc <= u32::MAX,
                self.wf(),
                self.pos == e,
                self.bytes@ == old(self).bytes@,
                s == old(self).rest(),
                next_token(s) == Some((tok, self.rest())),
            decreases e - k,
        {
            let b = self.bytes[k];
            if b < 48 || b > 57 {
                assert(tok[k - i] == b);
                return Err(ParseError::InvalidNumber);
            }
            let ghost pre = self.bytes@.subrange(i as int, k + 1);
            assert(pre.drop_last() =~= self.bytes@.subrange(i as int, k as int));
            acc = acc * 10 + (b - 48) as u64;
            assert(all_digits(pre));
            if acc > 0xFFFF_FFFF {
                proof {
                    if all_digits(tok) {
                        assert(tok.take(k + 1 - i) =~= pre);
                        lemma_digits_prefix(tok, k + 1 - i);
                    }
                }
                return Err(ParseError::InvalidNumber);
            }
            k = k + 1;
        }
        assert(self.bytes@.subrange(i as int, e as int) =~= tok);
        Ok(acc as u32)
    }

    /// Reads the next two numbers of the line, stopping at the first error.
    pub fn pair(&mut self) -> (r: Result<(u32, u32), ParseError>)
        requires
            old(self).wf(),
        ensures
            final(self).wf(),
            r == pair_of(old(self).rest()),
    {
        match self.next() {
            Err(e) => Err(e),
            Ok(x) => match self.next() {
                Err(e) => Err(e),
                Ok(y) => Ok((x, y)),
            },
        }
    }

    /// All remaining numbers of the line, in order.
    pub fn collect(self) -> (r: Result<Vec<u32>, ParseError>)
        requires
            self.wf(),
        ensures
            r matches Ok(v) ==> parse_all(self.rest()) == Ok::<Seq<u32>, ParseError>(v@),
            r matches Err(e) ==> parse_all(self.rest()) == Err::<Seq<u32>, ParseError>(e),
    {
        let ghost s = self.rest();
        let mut line = self;
        let mut out: Vec<u32> = Vec::new();
        proof {
            match parse_all(s) {
                Ok(tail) => {
                    assert(out@.add(tail) =~= tail);
                },
                Err(_) => {},
            }
        }
        loop
            invariant
                line.wf(),
                s == self.rest(),
                parse_all(s) == match parse_all(line.rest()) {
                    Ok(tail) => Ok::<Seq<u32>, ParseError>(out@.add(tail)),
                    Err(e) => Err(e),
                },
            decreases line.rest().len(),
        {
            let ghost before = line.rest();
            proof {
                lemma_next_token_shrinks(before);
            }
            match line.next() {
                Err(ParseError::MissingToken) => {
                    assert(parse_all(before) == Ok::<Seq<u32>, ParseError>(Seq::empty()));
                    assert(out@.add(Seq::<u32>::empty()) =~= out@);
                    assert(parse_all(s) == Ok::<Seq<u32>, ParseError>(out@));
                    return Ok(out);
                },
                Err(e) => {
                    assert(parse_all(before) == Err::<Seq<u32>, ParseError>(e));
                    assert(parse_all(s) == Err::<Seq<u32>, ParseError>(e));
                    return Err(e);
                },
                Ok(v) => {
                    proof {
                        match parse_all(line.rest()) {
                            Ok(tail) => {
                                assert(out@.push(v).add(tail) =~= out@.add(seq![v].add(tail)));
                            },
                            Err(_) => {},
                        }
                    }
                    out.push(v);
                },
            }
        }
    }
}

} // verus!
