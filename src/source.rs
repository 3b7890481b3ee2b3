//! Whitespace-separated tokens of line-oriented text, and readers that turn
//! a token into a value.

use vstd::prelude::*;
use vstd::std_specs::iter::IteratorSpec;
use vstd::string::{StrSliceExecFns, StringSliceAdditionalSpecFns};

verus! {

/// Whether `c` has the Unicode `White_Space` property.
pub open spec fn white_space(c: char) -> bool {
    let u = c as u32;
    ||| 0x09 <= u <= 0x0d
    ||| u == 0x20
    ||| u == 0x85
    ||| u == 0xa0
    ||| u == 0x1680
    ||| 0x2000 <= u <= 0x200a
    ||| u == 0x2028
    ||| u == 0x2029
    ||| u == 0x202f
    ||| u == 0x205f
    ||| u == 0x3000
}

/// Whether `c` has the Unicode `White_Space` property, as
/// `char::is_whitespace` answers.
pub fn is_space(c: char) -> (r: bool)
    ensures
        r == white_space(c),
{
    let u = c as u32;
    (0x09 <= u && u <= 0x0d) || u == 0x20 || u == 0x85 || u == 0xa0 || u == 0x1680 || (0x2000 <= u && u <= 0x200a)
        || u == 0x2028 || u == 0x2029 || u == 0x202f || u == 0x205f || u == 0x3000
}

broadcast use {vstd::string::axiom_spec_iter, vstd::string::next_postcondition};

/// The characters of `s`, in order.
fn chars_of(s: &str) -> (r: Vec<char>)
    ensures
        r@ == s@,
{
    let mut it = s.chars();
    let mut r: Vec<char> = Vec::new();
    loop
        invariant
            it.obeys_prophetic_iter_laws(),
            r@ + it.remaining() == s@,
        decreases s@.len() - r@.len(),
    {
        let ghost before = it.remaining();
        match it.next() {
            Some(c) => {
                r.push(c);
                proof {
                    assert(r@ + it.remaining() =~= s@) by {
                        assert(before == seq![c] + it.remaining());
                    }
                }
            },
            None => {
                proof {
                    assert(r@ =~= s@);
                }
                return r;
            },
        }
    }
}

/// Relies on `String::from_iter`: the text made of the characters, in order.
#[verifier::external_body]
pub(crate) fn text_of(chars: &[char]) -> (r: String)
    ensures
        r@ == chars@,
{
    chars.iter().collect()
}

/// The number of white-space characters that `s` starts with.
pub open spec fn space_run(s: Seq<char>) -> nat
    decreases s.len(),
{
    if s.len() > 0 && white_space(s[0]) {
        1 + space_run(s.drop_first())
    } else {
        0
    }
}

/// The number of other characters that `s` starts with.
pub open spec fn word_run(s: Seq<char>) -> nat
    decreases s.len(),
{
    if s.len() > 0 && !white_space(s[0]) {
        1 + word_run(s.drop_first())
    } else {
        0
    }
}

proof fn lemma_space_run_bound(s: Seq<char>)
    ensures
        space_run(s) <= s.len(),
    decreases s.len(),
{
    if s.len() > 0 && white_space(s[0]) {
        lemma_space_run_bound(s.drop_first());
    }
}

proof fn lemma_word_run_bound(s: Seq<char>)
    ensures
        word_run(s) <= s.len(),
    decreases s.len(),
{
    if s.len() > 0 && !white_space(s[0]) {
        lemma_word_run_bound(s.drop_first());
    }
}

/// Text read line by line and handed out token by token.
pub struct Source {
    text: Vec<char>,
    pos: usize,
}

impl Source {
    /// The text not handed out yet.
    pub closed spec fn pending(&self) -> Seq<char> {
        self.text@.subrange(self.pos as int, self.text@.len() as int)
    }

    /// The source is well formed.
    pub closed spec fn wf(&self) -> bool {
        self.pos <= self.text@.len()
    }

    /// A source with no text yet.
    pub fn new() -> (r: Self)
        ensures
            r.wf(),
            r.pending().len() == 0,
    {
        Source { text: Vec::new(), pos: 0 }
    }

    /// A source with `line` as its text.
    pub fn from_line(line: &str) -> (r: Self)
        ensures
            r.wf(),
            r.pending() == line@,
    {
        let text = chars_of(line);
        proof {
            assert(text@.subrange(0, text@.len() as int) =~= text@);
        }
        Source { text, pos: 0 }
    }

    /// Replaces the text by the next line, once every token of the current
    /// one has been handed out.
    pub fn feed(&mut self, line: &str)
        requires
            old(self).wf(),
        ensures
            final(self).wf(),
            final(self).pending() == line@,
    {
        self.text = chars_of(line);
        self.pos = 0;
        proof {
            assert(self.text@.subrange(0, self.text@.len() as int) =~= self.text@);
        }
    }

    /// Skips the white space at the front of the pending text.
    fn skip_space(&mut self)
        requires
            old(self).wf(),
        ensures
            final(self).wf(),
            final(self).text == old(self).text,
            final(self).pending() == old(self).pending().subrange(
                space_run(old(self).pending()) as int,
                old(self).pending().len() as int,
            ),
    {
        let ghost start = self.pending();
        proof {
            lemma_space_run_bound(start);
        }
        while self.pos < self.text.len() && is_space(self.text[self.pos])
            invariant
                self.wf(),
                self.text == old(self).text,
                old(self).pos <= self.pos,
                start == old(self).pending(),
                space_run(start) == (self.pos - old(self).pos) + space_run(self.pending()),
            decreases self.text@.len() - self.pos,
        {
            proof {
                assert(self.pending().drop_first() =~= self.text@.subrange(self.pos + 1, self.text@.len() as int));
            }
            self.pos = self.pos + 1;
        }
        proof {
            assert(space_run(self.pending()) == 0);
            assert(self.pending() =~= start.subrange(space_run(start) as int, start.len() as int));
        }
    }

    /// Whether no token is left in the pending text.
    pub fn is_empty(&mut self) -> (r: bool)
        requires
            old(self).wf(),
        ensures
            final(self).wf(),
            r == (space_run(old(self).pending()) == old(self).pending().len()),
            final(self).pending() == old(self).pending().subrange(
                space_run(old(self).pending()) as int,
                old(self).pending().len() as int,
            ),
    {
        proof {
            lemma_space_run_bound(self.pending());
        }
        self.skip_space();
        proof {
            assert(self.pending().len() == self.text@.len() - self.pos);
        }
        self.pos == self.text.len()
    }

    /// The next token: the white space in front is skipped, then the
    /// characters up to the next white space are handed out; `None` when
    /// only white space is left.
    pub fn next_token(&mut self) -> (r: Option<String>)
        requires
            old(self).wf(),
        ensures
            final(self).wf(),
            ({
                let s = old(self).pending();
                let a = space_run(s) as int;
                let rest = s.subrange(a, s.len() as int);
                let b = word_run(rest) as int;
                &&& r is None <==> a == s.len()
                &&& r matches Some(t) ==> t@ == rest.subrange(0, b)
                &&& final(self).pending() == rest.subrange(b, rest.len() as int)
            }),
    {
        proof {
            lemma_space_run_bound(self.pending());
        }
        self.skip_space();
        let ghost rest = self.pending();
        if self.pos == self.text.len() {
            proof {
                assert(rest.len() == 0);
            }
            return None;
        }
        let start = self.pos;
        proof {
            lemma_word_run_bound(rest);
        }
        while self.pos < self.text.len() && !is_space(self.text[self.pos])
            invariant
                self.wf(),
                start <= self.pos,
                rest == self.text@.subrange(start as int, self.text@.len() as int),
                word_run(rest) == (self.pos - start) + word_run(self.pending()),
            decreases self.text@.len() - self.pos,
        {
            proof {
                assert(self.pending().drop_first() =~= self.text@.subrange(self.pos + 1, self.text@.len() as int));
            }
            self.pos = self.pos + 1;
        }
        proof {
            assert(word_run(self.pending()) == 0);
            assert(self.pending() =~= rest.subrange(word_run(rest) as int, rest.len() as int));
            assert(self.text@.subrange(start as int, self.pos as int) =~= rest.subrange(0, word_run(rest) as int));
        }
        let token = text_of(&self.text.as_slice()[start..self.pos]);
        Some(token)
    }
}

/// Whether every character of `s` is a decimal digit.
pub open spec fn all_digits(s: Seq<char>) -> bool {
    forall|i: int| 0 <= i < s.len() ==> '0' <= #[trigger] s[i] <= '9'
}

/// The number that the decimal digits `s` write.
pub open spec fn digits_value(s: Seq<char>) -> nat
    decreases s.len(),
{
    if s.len() == 0 {
        0
    } else {
        digits_value(s.drop_last()) * 10 + (s.last() as nat - '0' as nat) as nat
    }
}

/// The number written by `s`: at least one decimal digit, after an
/// optional `+`.
pub open spec fn unsigned_text(s: Seq<char>) -> Option<nat> {
    let body = if s.len() > 0 && s[0] == '+' {
        s.drop_first()
    } else {
        s
    };
    if body.len() > 0 && all_digits(body) {
        Some(digits_value(body))
    } else {
        None
    }
}

/// The number written by `s`: at least one decimal digit, after an
/// optional `+` or `-`.
pub open spec fn signed_text(s: Seq<char>) -> Option<int> {
    if s.len() > 0 && s[0] == '-' {
        let body = s.drop_first();
        if body.len() > 0 && all_digits(body) {
            Some(-digits_value(body))
        } else {
            None
        }
    } else {
        match unsigned_text(s) {
            Some(v) => Some(v as int),
            None => None,
        }
    }
}

proof fn lemma_digits_grow(s: Seq<char>, k: int)
    requires
        0 <= k <= s.len(),
        all_digits(s),
    ensures
        digits_value(s.subrange(0, k)) <= digits_value(s),
    decreases s.len() - k,
{
    if k < s.len() {
        lemma_digits_grow(s, k + 1);
        let t = s.subrange(0, k + 1);
        assert(t.drop_last() =~= s.subrange(0, k));
    } else {
        assert(s.subrange(0, k) =~= s);
    }
}

/// The value of the decimal digits `s[from..]`, if every one of them is a
/// digit and the value is at most `limit`.
fn digits_up_to(s: &Vec<char>, from: usize, limit: u64) -> (r: Option<u64>)
    requires
        from <= s@.len(),
    ensures
        ({
            let body = s@.subrange(from as int, s@.len() as int);
            r == if all_digits(body) && digits_value(body) <= limit {
                Some(digits_value(body) as u64)
            } else {
                None
            }
        }),
{
    let ghost body = s@.subrange(from as int, s@.len() as int);
    let mut v: u64 = 0;
    let mut i: usize = from;
    while i < s.len()
        invariant
            from <= i <= s@.len(),
            body == s@.subrange(from as int, s@.len() as int),
            all_digits(s@.subrange(from as int, i as int)),
            v == digits_value(s@.subrange(from as int, i as int)),
            v <= limit,
        decreases s@.len() - i,
    {
        let c = s[i];
        let ghost done = s@.subrange(from as int, i as int);
        let ghost next = s@.subrange(from as int, i + 1);
        proof {
            assert(next.drop_last() =~= done);
            assert(next.last() == c);
        }
        if !('0' <= c && c <= '9') {
            proof {
                assert(body[i - from] == c);
            }
            return None;
        }
        let d = (c as u32 - '0' as u32) as u64;
        if d > limit || v > (limit - d) / 10 {
            proof {
                if d <= limit {
                    assert(v * 10 + d > limit) by (nonlinear_arith)
                        requires
                            v > (limit - d) / 10,
                            d <= limit,
                    ;
                }
                assert(digits_value(next) > limit);
                if all_digits(body) {
                    assert(body.subrange(0, i + 1 - from) =~= next);
                    lemma_digits_grow(body, i + 1 - from);
                }
            }
            return None;
        }
        proof {
            assert(v * 10 + d <= limit) by (nonlinear_arith)
                requires
                    v <= (limit - d) / 10,
                    d <= 9,
                    limit >= d,
            ;
        }
        v = v * 10 + d;
        i = i + 1;
    }
    proof {
        assert(s@.subrange(from as int, i as int) =~= body);
    }
    Some(v)
}

/// What `usize`'s `FromStr` makes of `s`.
pub open spec fn usize_of(s: Seq<char>) -> Option<usize> {
    match unsigned_text(s) {
        Some(v) => if v <= usize::MAX {
            Some(v as usize)
        } else {
            None
        },
        None => None,
    }
}

/// What `isize`'s `FromStr` makes of `s`.
pub open spec fn isize_of(s: Seq<char>) -> Option<isize> {
    match signed_text(s) {
        Some(v) => if isize::MIN <= v <= isize::MAX {
            Some(v as isize)
        } else {
            None
        },
        None => None,
    }
}

/// Parses `t` as `usize`'s `FromStr` does: decimal digits after an
/// optional `+`, within range.
pub fn parse_usize(t: &str) -> (r: Option<usize>)
    ensures
        r == usize_of(t@),
{
    let s = chars_of(t);
    let from: usize = if s.len() > 0 && s[0] == '+' {
        1
    } else {
        0
    };
    proof {
        assert(s@.subrange(1, s@.len() as int) =~= s@.drop_first());
        assert(s@.subrange(0, s@.len() as int) =~= s@);
    }
    if from == s.len() {
        return None;
    }
    match digits_up_to(&s, from, usize::MAX as u64) {
        Some(v) => Some(v as usize),
        None => None,
    }
}

/// Parses `t` as `isize`'s `FromStr` does: decimal digits after an
/// optional `+` or `-`, within range.
pub fn parse_isize(t: &str) -> (r: Option<isize>)
    ensures
        r == isize_of(t@),
{
    let s = chars_of(t);
    proof {
        assert(s@.subrange(1, s@.len() as int) =~= s@.drop_first());
        assert(s@.subrange(0, s@.len() as int) =~= s@);
    }
    if s.len() > 0 && s[0] == '-' {
        if s.len() == 1 {
            return None;
        }
        match digits_up_to(&s, 1, isize::MAX as u64 + 1) {
            Some(v) => {
                if v == isize::MAX as u64 + 1 {
                    Some(isize::MIN)
                } else {
                    Some(-(v as isize))
                }
            },
            None => None,
        }
    } else {
        let from: usize = if s.len() > 0 && s[0] == '+' {
            1
        } else {
            0
        };
        if from == s.len() {
            return None;
        }
        match digits_up_to(&s, from, isize::MAX as u64) {
            Some(v) => Some(v as isize),
            None => None,
        }
    }
}

/// A value that can be read from the next token of a source.
pub trait Readable {
    type Output;

    /// Reads the next token of `source` as a value; `None` when no token is
    /// left or the token does not give one.
    fn read(source: &mut Source) -> (r: Option<Self::Output>)
        requires
            old(source).wf(),
        ensures
            final(source).wf(),
    ;
}

/// A value read from the tokens of a source.
pub trait ReadInput: Sized {
    /// Reads a value from the tokens of `source`.
    fn read_from(source: &mut Source) -> (r: Self)
        requires
            old(source).wf(),
        ensures
            final(source).wf(),
    ;
}

/// Reads a token as its characters.
pub struct Chars;

/// Reads a token as its UTF-8 bytes.
pub struct Bytes;

/// Reads a 1-based `usize` as a 0-based one.
pub struct Usize1;

/// Reads a 1-based `isize` as a 0-based one.
pub struct Isize1;

impl Chars {
    /// The characters of `t`.
    pub fn from_token(t: &str) -> (r: Vec<char>)
        ensures
            r@ == t@,
    {
        chars_of(t)
    }
}

impl Bytes {
    /// The UTF-8 bytes of `t`.
    pub fn from_token(t: &str) -> (r: Vec<u8>)
        ensures
            r@ == t.spec_bytes(),
    {
        t.as_bytes_vec()
    }
}

impl Usize1 {
    /// One less than the `usize` that `t` writes; `None` when it writes none
    /// or zero.
    pub fn from_token(t: &str) -> (r: Option<usize>)
        ensures
            r == match usize_of(t@) {
                Some(v) => if v >= 1 {
                    Some((v - 1) as usize)
                } else {
                    None
                },
                None => None,
            },
    {
        match parse_usize(t) {
            Some(v) => v.checked_sub(1),
            None => None,
        }
    }
}

impl Isize1 {
    /// One less than the `isize` that `t` writes; `None` when it writes none
    /// or the least `isize`.
    pub fn from_token(t: &str) -> (r: Option<isize>)
        ensures
            r == match isize_of(t@) {
                Some(v) => if v > isize::MIN {
                    Some((v - 1) as isize)
                } else {
                    None
                },
                None => None,
            },
    {
        match parse_isize(t) {
            Some(v) => v.checked_sub(1),
            None => None,
        }
    }
}

impl Readable for Chars {
    type Output = Vec<char>;

    fn read(source: &mut Source) -> Option<Vec<char>> {
        match source.next_token() {
            Some(t) => Some(Chars::from_token(t.as_str())),
            None => None,
        }
    }
}

impl Readable for Bytes {
    type Output = Vec<u8>;

    fn read(source: &mut Source) -> Option<Vec<u8>> {
        match source.next_token() {
            Some(t) => Some(Bytes::from_token(t.as_str())),
            None => None,
        }
    }
}

impl Readable for Usize1 {
    type Output = usize;

    fn read(source: &mut Source) -> Option<usize> {
        match source.next_token() {
            Some(t) => Usize1::from_token(t.as_str()),
            None => None,
        }
    }
}

impl Readable for Isize1 {
    type Output = isize;

    fn read(source: &mut Source) -> Option<isize> {
        match source.next_token() {
            Some(t) => Isize1::from_token(t.as_str()),
            None => None,
        }
    }
}

} // verus!
