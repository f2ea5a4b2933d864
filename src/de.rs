//! The decisions that project fields onto a caller's data shape: which key
//! comes next, whether a stanza is over, and how one value is cut into tokens.
use vstd::prelude::*;

use crate::error::Error;
use crate::naive::{fold, fold_key, fold_of, grouped, iter_from_str, FieldV, Iter};
use crate::text::{
    is_blank, is_whitespace, is_ws, join_value, skip_ws, slice_chars, string_of, trim, trim_start,
    trimmed, views, whole_text,
};

verus! {

/// How the value is being read: as one text, as a sequence of
/// whitespace-separated tokens, or as a tuple inside such a sequence with the
/// given number of slots still to come.
#[derive(Clone, Copy, PartialEq, Eq, Structural)]
pub enum ValueMode {
    WholeText,
    Sequence,
    Tuple(usize),
}

/// The fragments left once the leading blank ones are dropped.
pub open spec fn drop_blank(fs: Seq<Seq<char>>) -> Seq<Seq<char>>
    decreases fs.len(),
{
    if fs.len() > 0 && is_blank(fs[0]) {
        drop_blank(fs.drop_first())
    } else {
        fs
    }
}

/// `i` is the position of the first whitespace character of `g`.
pub open spec fn first_ws_at(g: Seq<char>, i: int) -> bool {
    &&& 0 <= i < g.len()
    &&& is_ws(g[i])
    &&& forall|j: int| 0 <= j < i ==> !is_ws(g[j])
}

pub open spec fn has_ws(g: Seq<char>) -> bool {
    exists|i: int| 0 <= i < g.len() && is_ws(g[i])
}

/// The first token of fragment `f` and what follows the whitespace
/// character that ends it.
pub open spec fn split_token(f: Seq<char>) -> (Seq<char>, Seq<char>) {
    let g = trim_start(f);
    if has_ws(g) {
        let i = choose|i: int| first_ws_at(g, i);
        (g.subrange(0, i), g.subrange(i + 1, g.len() as int))
    } else {
        (g, Seq::empty())
    }
}

/// Whether a token can be taken from fragments `fs`: for the last slot of a
/// tuple, a current fragment, even a blank one; else a non-blank fragment.
pub open spec fn token_available(fs: Seq<Seq<char>>, last: bool) -> bool {
    if last {
        fs.len() > 0
    } else {
        drop_blank(fs).len() > 0
    }
}

/// The token taken from fragments `fs`, and the fragments left: for the last
/// slot of a tuple, the current fragment as it stands, trimmed, which is then
/// used up; else the first token of the first non-blank fragment.
pub open spec fn take_token(fs: Seq<Seq<char>>, last: bool) -> (Seq<char>, Seq<Seq<char>>) {
    if last {
        (trim(fs[0]), fs.update(0, Seq::empty()))
    } else {
        let gs = drop_blank(fs);
        (split_token(gs[0]).0, gs.update(0, split_token(gs[0]).1))
    }
}

proof fn lemma_drop_blank_empty(fs: Seq<Seq<char>>)
    ensures
        (drop_blank(fs).len() == 0) == (forall|i: int| 0 <= i < fs.len() ==> is_blank(
            #[trigger] fs[i],
        )),
    decreases fs.len(),
{
    if fs.len() > 0 {
        lemma_drop_blank_empty(fs.drop_first());
        if is_blank(fs[0]) {
            assert forall|i: int| 0 <= i < fs.len() && is_blank(fs.drop_first()[i - 1]) && i > 0
                implies is_blank(#[trigger] fs[i]) by {
                assert(fs[i] == fs.drop_first()[i - 1]);
            }
            if forall|i: int| 0 <= i < fs.drop_first().len() ==> is_blank(
                #[trigger] fs.drop_first()[i],
            ) {
                assert forall|i: int| 0 <= i < fs.len() implies is_blank(#[trigger] fs[i]) by {
                    if i > 0 {
                        assert(fs[i] == fs.drop_first()[i - 1]);
                    }
                }
            }
            if forall|i: int| 0 <= i < fs.len() ==> is_blank(#[trigger] fs[i]) {
                assert forall|i: int| 0 <= i < fs.drop_first().len() implies is_blank(
                    #[trigger] fs.drop_first()[i],
                ) by {
                    assert(fs.drop_first()[i] == fs[i + 1]);
                }
            }
        }
    }
}

/// Whether a token request in `mode` takes the rest of the fragment.
pub open spec fn is_last_slot(mode: ValueMode) -> bool {
    mode == ValueMode::Tuple(1)
}

/// The value of a string of decimal digits.
pub open spec fn digits_value(d: Seq<char>) -> int
    decreases d.len(),
{
    if d.len() == 0 {
        0
    } else {
        digits_value(d.drop_last()) * 10 + digit_value(d.last())
    }
}

pub open spec fn is_digit(c: char) -> bool {
    c == '0' || c == '1' || c == '2' || c == '3' || c == '4' || c == '5' || c == '6' || c == '7'
        || c == '8' || c == '9'
}

/// The value of digit `c`.
pub open spec fn digit_value(c: char) -> int {
    if c == '1' { 1 } else if c == '2' { 2 } else if c == '3' { 3 } else if c == '4' { 4 }
    else if c == '5' { 5 } else if c == '6' { 6 } else if c == '7' { 7 } else if c == '8' { 8 }
    else if c == '9' { 9 } else { 0 }
}

fn digit_of(c: char) -> (r: Option<u64>)
    ensures
        match r {
            Some(v) => is_digit(c) && v == digit_value(c),
            None => !is_digit(c),
        },
{
    if c == '0' { Some(0) } else if c == '1' { Some(1) } else if c == '2' { Some(2) }
    else if c == '3' { Some(3) } else if c == '4' { Some(4) } else if c == '5' { Some(5) }
    else if c == '6' { Some(6) } else if c == '7' { Some(7) } else if c == '8' { Some(8) }
    else if c == '9' { Some(9) } else { None }
}

/// The digits of a token, after one optional `+`.
pub open spec fn unsigned_digits(t: Seq<char>) -> Seq<char> {
    if t.len() > 0 && t[0] == '+' {
        t.drop_first()
    } else {
        t
    }
}

/// A token reads as a `u64`: an optional `+`, then at least one digit, and a
/// value that fits.
pub open spec fn is_u64_text(t: Seq<char>) -> bool {
    let d = unsigned_digits(t);
    &&& d.len() > 0
    &&& forall|i: int| 0 <= i < d.len() ==> is_digit(#[trigger] d[i])
    &&& digits_value(d) <= u64::MAX
}

proof fn lemma_digits_value_nonneg(d: Seq<char>)
    ensures
        digits_value(d) >= 0,
    decreases d.len(),
{
    if d.len() > 0 {
        lemma_digits_value_nonneg(d.drop_last());
    }
}

proof fn lemma_digits_value_grows(d: Seq<char>, i: int, j: int)
    requires
        0 <= i <= j <= d.len(),
        forall|k: int| 0 <= k < d.len() ==> is_digit(#[trigger] d[k]),
    ensures
        digits_value(d.subrange(0, i)) <= digits_value(d.subrange(0, j)),
    decreases j - i,
{
    if i < j {
        lemma_digits_value_grows(d, i, j - 1);
        lemma_digits_value_nonneg(d.subrange(0, j - 1));
        assert(d.subrange(0, j).drop_last() =~= d.subrange(0, j - 1));
        assert(d.subrange(0, j).last() == d[j - 1]);
        assert(is_digit(d[j - 1]));
    }
}

/// The number written by token `t`, if it is one.
pub fn parse_u64(t: &Vec<char>) -> (r: Option<u64>)
    ensures
        match r {
            Some(v) => is_u64_text(t@) && v == digits_value(unsigned_digits(t@)),
            None => !is_u64_text(t@),
        },
{
    let start: usize = if t.len() > 0 && t[0] == '+' {
        1
    } else {
        0
    };
    let ghost d = unsigned_digits(t@);
    assert(d =~= t@.subrange(start as int, t@.len() as int));
    if start == t.len() {
        return None;
    }
    let mut v: u64 = 0;
    let mut i: usize = start;
    while i < t.len()
        invariant
            start <= i <= t.len(),
            d == t@.subrange(start as int, t@.len() as int),
            d == unsigned_digits(t@),
            forall|k: int| 0 <= k < i - start ==> is_digit(#[trigger] d[k]),
            v == digits_value(d.subrange(0, i - start)),
        decreases t.len() - i,
    {
        assert(d[i - start] == t@[i as int]);
        assert(d.subrange(0, i - start + 1).last() == t@[i as int]);
        let digit = match digit_of(t[i]) {
            Some(x) => x,
            None => {
                assert(!is_digit(unsigned_digits(t@)[i - start]));
                return None;
            },
        };
        assert(d.subrange(0, i - start + 1).drop_last() =~= d.subrange(0, i - start));
        match v.checked_mul(10) {
            Some(m) => match m.checked_add(digit) {
                Some(n) => {
                    v = n;
                },
                None => {
                    proof {
                        lemma_digits_value_nonneg(d.subrange(0, i - start));
                        assert forall|k: int| 0 <= k < i - start + 1 implies is_digit(
                            #[trigger] d.subrange(0, i - start + 1)[k],
                        ) by {
                            assert(d.subrange(0, i - start + 1)[k] == d[k]);
                        }
                        if forall|k: int| 0 <= k < d.len() ==> is_digit(#[trigger] d[k]) {
                            lemma_digits_value_grows(d, i - start + 1, d.len() as int);
                            assert(d.subrange(0, d.len() as int) =~= d);
                        }
                    }
                    return None;
                },
            },
            None => {
                proof {
                    lemma_digits_value_nonneg(d.subrange(0, i - start));
                    if forall|k: int| 0 <= k < d.len() ==> is_digit(#[trigger] d[k]) {
                        lemma_digits_value_grows(d, i - start + 1, d.len() as int);
                        assert(d.subrange(0, d.len() as int) =~= d);
                    }
                }
                return None;
            },
        }
        i = i + 1;
    }
    assert(d.subrange(0, d.len() as int) =~= d);
    Some(v)
}

proof fn lemma_first_ws(g: Seq<char>, i: int)
    requires
        first_ws_at(g, i),
    ensures
        (choose|j: int| first_ws_at(g, j)) == i,
        has_ws(g),
{
    let j = choose|j: int| first_ws_at(g, j);
    assert(first_ws_at(g, j));
    if j < i {
        assert(!is_ws(g[j]));
    } else if i < j {
        assert(!is_ws(g[i]));
    }
}

/// The first token of fragment `f` and what is left of it.
fn split_first_token(f: &Vec<char>) -> (r: (Vec<char>, Vec<char>))
    ensures
        r.0@ == split_token(f@).0,
        r.1@ == split_token(f@).1,
{
    let n = f.len();
    let a = skip_ws(f, 0, n);
    let ghost g = f@.subrange(a as int, n as int);
    proof {
        crate::text::lemma_trim_start_skip(f@, a as int);
        if a < n {
            assert(g[0] == f@[a as int]);
        }
        assert(trim_start(g) == g);
    }
    let mut b = a;
    while b < n && !is_whitespace(f[b])
        invariant
            a <= b <= n == f.len(),
            forall|j: int| a <= j < b ==> !is_ws(#[trigger] f@[j]),
        decreases n - b,
    {
        b = b + 1;
    }
    proof {
        if b < n {
            assert forall|j: int| 0 <= j < b - a implies !is_ws(#[trigger] g[j]) by {
                assert(g[j] == f@[a + j]);
            }
            assert(g[b - a] == f@[b as int]);
            lemma_first_ws(g, b - a);
        } else {
            assert forall|j: int| 0 <= j < g.len() implies !is_ws(#[trigger] g[j]) by {
                assert(g[j] == f@[a + j]);
            }
        }
    }
    let tok = slice_chars(f, a, b);
    if b < n {
        let rest = slice_chars(f, b + 1, n);
        assert(tok@ =~= g.subrange(0, b - a));
        assert(rest@ =~= g.subrange(b - a + 1, g.len() as int));
        (tok, rest)
    } else {
        assert(tok@ =~= g);
        (tok, Vec::new())
    }
}

/// One field's value, read on demand in the mode that the caller asks for.
pub struct DeserializerValue {
    value: Vec<Vec<char>>,
    mode: ValueMode,
}

impl DeserializerValue {
    /// The fragments not read yet.
    pub closed spec fn frags(&self) -> Seq<Seq<char>> {
        views(self.value@)
    }

    pub closed spec fn mode(&self) -> ValueMode {
        self.mode
    }

    /// A value made of fragments `value`, to be read as one text unless the
    /// caller asks otherwise.
    pub fn new(value: Vec<Vec<char>>) -> (r: Self)
        ensures
            r.frags() == views(value@),
            r.mode() == ValueMode::WholeText,
    {
        DeserializerValue { value, mode: ValueMode::WholeText }
    }

    pub fn mode_now(&self) -> (r: ValueMode)
        ensures
            r == self.mode(),
    {
        self.mode
    }

    /// Drops the leading fragments that hold only whitespace.
    pub fn trim_start(&mut self)
        ensures
            final(self).frags() == drop_blank(old(self).frags()),
            final(self).mode() == old(self).mode(),
    {
        while self.value.len() > 0 && crate::text::blank_range(
            &self.value[0],
            0,
            self.value[0].len(),
        )
            invariant
                drop_blank(views(self.value@)) == drop_blank(old(self).frags()),
                self.mode == old(self).mode,
            decreases self.value.len(),
        {
            let ghost before = views(self.value@);
            assert(self.value@[0]@.subrange(0, self.value@[0]@.len() as int) =~= self.value@[0]@);
            assert(before[0] == self.value@[0]@);
            self.value.remove(0);
            assert(views(self.value@) =~= before.drop_first());
        }
        proof {
            if self.value.len() > 0 {
                assert(self.value@[0]@.subrange(0, self.value@[0]@.len() as int)
                    =~= self.value@[0]@);
                assert(views(self.value@)[0] == self.value@[0]@);
            }
        }
    }

    /// Whether no fragment is left.
    pub fn is_empty(&self) -> (r: bool)
        ensures
            r == (self.frags().len() == 0),
    {
        self.value.len() == 0
    }

    /// Whether a token can be taken now, without changing the value.
    pub fn has_token(&self) -> (r: bool)
        ensures
            r == (self.mode() != ValueMode::WholeText && token_available(
                self.frags(),
                is_last_slot(self.mode()),
            )),
    {
        if self.mode == ValueMode::WholeText {
            return false;
        }
        if self.mode == ValueMode::Tuple(1) {
            return self.value.len() > 0;
        }
        let ghost fs = self.frags();
        proof {
            lemma_drop_blank_empty(fs);
        }
        let mut i: usize = 0;
        while i < self.value.len()
            invariant
                i <= self.value.len(),
                fs == views(self.value@),
                self.mode != ValueMode::WholeText,
                !is_last_slot(self.mode),
                forall|j: int| 0 <= j < i ==> is_blank(#[trigger] fs[j]),
            decreases self.value.len() - i,
        {
            let n = self.value[i].len();
            assert(self.value@[i as int]@.subrange(0, n as int) =~= self.value@[i as int]@);
            assert(fs[i as int] == self.value@[i as int]@);
            if !crate::text::blank_range(&self.value[i], 0, n) {
                assert(!is_blank(fs[i as int]));
                proof {
                    lemma_drop_blank_empty(fs);
                }
                assert(!(forall|j: int| 0 <= j < fs.len() ==> is_blank(#[trigger] fs[j])));
                return true;
            }
            i = i + 1;
        }
        false
    }

    /// The next token of a value read as a sequence: the next run of
    /// non-whitespace characters, or, for the last slot of a tuple, the
    /// current fragment without its surrounding whitespace. When no token can
    /// be taken, the value stays as it was.
    pub fn next_token(&mut self) -> (r: Result<String, Error>)
        ensures
            final(self).mode() == old(self).mode(),
            r is Err <==> !(old(self).mode() != ValueMode::WholeText && token_available(
                old(self).frags(),
                is_last_slot(old(self).mode()),
            )),
            r is Err ==> r matches Err(Error::Message(_)),
            r is Err ==> final(self).frags() == old(self).frags(),
            r matches Ok(t) ==> t@ == take_token(old(self).frags(), is_last_slot(old(self).mode())).0,
            r is Ok ==> final(self).frags() == take_token(
                old(self).frags(),
                is_last_slot(old(self).mode()),
            ).1,
    {
        if self.mode == ValueMode::WholeText {
            return Err(Error::message("a token was requested outside a sequence"));
        }
        if !self.has_token() {
            return Err(Error::message("no token is left in the value"));
        }
        if self.mode == ValueMode::Tuple(1) {
            let ghost fs = self.frags();
            assert(fs[0] == self.value@[0]@);
            let n = self.value[0].len();
            let tok = trimmed(&self.value[0], 0, n);
            assert(self.value@[0]@.subrange(0, n as int) =~= self.value@[0]@);
            self.value[0] = Vec::new();
            assert(self.frags() =~= fs.update(0, Seq::empty()));
            Ok(string_of(&tok))
        } else {
            self.trim_start();
            let ghost gs = self.frags();
            assert(gs[0] == self.value@[0]@);
            let (tok, rest) = split_first_token(&self.value[0]);
            self.value[0] = rest;
            assert(self.frags() =~= gs.update(0, split_token(gs[0]).1));
            Ok(string_of(&tok))
        }
    }
}

impl DeserializerValue {
    /// The value as text: all of it, joined with `\n`, outside a sequence,
    /// and the next token inside one.
    pub fn string(&mut self) -> (r: Result<String, Error>)
        ensures
            final(self).mode() == old(self).mode(),
            old(self).mode() == ValueMode::WholeText ==> (r matches Ok(t) && t@ == whole_text(
                old(self).frags(),
            )),
            old(self).mode() == ValueMode::WholeText ==> final(self).frags().len() == 0,
            old(self).mode() != ValueMode::WholeText ==> (r is Err <==> !token_available(
                old(self).frags(),
                is_last_slot(old(self).mode()),
            )),
            r is Err ==> r matches Err(Error::Message(_)),
            r is Err ==> final(self).frags() == old(self).frags(),
            old(self).mode() != ValueMode::WholeText ==> (r matches Ok(t) ==> t@ == take_token(
                old(self).frags(),
                is_last_slot(old(self).mode()),
            ).0 && final(self).frags() == take_token(
                old(self).frags(),
                is_last_slot(old(self).mode()),
            ).1),
    {
        if self.mode == ValueMode::WholeText {
            let t = join_value(&self.value);
            self.value = Vec::new();
            assert(self.frags() =~= Seq::<Seq<char>>::empty());
            Ok(t)
        } else {
            self.next_token()
        }
    }

    /// The next token read as an unsigned number.
    pub fn u64(&mut self) -> (r: Result<u64, Error>)
        ensures
            final(self).mode() == old(self).mode(),
            r is Ok <==> (old(self).mode() != ValueMode::WholeText && token_available(
                old(self).frags(),
                is_last_slot(old(self).mode()),
            ) && is_u64_text(
                take_token(old(self).frags(), is_last_slot(old(self).mode())).0,
            )),
            r matches Ok(v) ==> v == digits_value(
                unsigned_digits(take_token(old(self).frags(), is_last_slot(old(self).mode())).0),
            ),
            r is Err ==> r matches Err(Error::Message(_)),
            old(self).mode() != ValueMode::WholeText && token_available(
                old(self).frags(),
                is_last_slot(old(self).mode()),
            ) ==> final(self).frags() == take_token(
                old(self).frags(),
                is_last_slot(old(self).mode()),
            ).1,
            !(old(self).mode() != ValueMode::WholeText && token_available(
                old(self).frags(),
                is_last_slot(old(self).mode()),
            )) ==> final(self).frags() == old(self).frags(),
    {
        let t = self.next_token()?;
        let chars = crate::text::chars_of(t.as_str());
        match parse_u64(&chars) {
            Some(v) => Ok(v),
            None => Err(Error::message("the token is not an unsigned number")),
        }
    }

    /// Starts reading the value as a sequence of tokens.
    pub fn begin_seq(&mut self) -> (r: Result<(), Error>)
        ensures
            r is Ok <==> old(self).mode() == ValueMode::WholeText,
            r is Err ==> r matches Err(Error::Message(_)),
            final(self).frags() == old(self).frags(),
            final(self).mode() == if r is Ok {
                ValueMode::Sequence
            } else {
                old(self).mode()
            },
    {
        if self.mode == ValueMode::WholeText {
            self.mode = ValueMode::Sequence;
            Ok(())
        } else {
            Err(Error::message("a sequence was requested inside a sequence"))
        }
    }

    /// Ends a sequence; outside one this is refused and nothing changes.
    pub fn end_seq(&mut self) -> (r: Result<(), Error>)
        ensures
            r is Ok <==> old(self).mode() == ValueMode::Sequence,
            r is Err ==> r matches Err(Error::Message(_)),
            final(self).frags() == old(self).frags(),
            final(self).mode() == if r is Ok {
                ValueMode::WholeText
            } else {
                old(self).mode()
            },
    {
        if self.mode == ValueMode::Sequence {
            self.mode = ValueMode::WholeText;
            Ok(())
        } else {
            Err(Error::message("a sequence was ended outside a sequence"))
        }
    }

    /// Starts a tuple of `len` slots inside a sequence.
    pub fn begin_tuple(&mut self, len: usize) -> (r: Result<(), Error>)
        ensures
            r is Ok <==> old(self).mode() == ValueMode::Sequence,
            r is Err ==> r matches Err(Error::Message(_)),
            final(self).frags() == old(self).frags(),
            final(self).mode() == if r is Ok {
                ValueMode::Tuple(len)
            } else {
                old(self).mode()
            },
    {
        if self.mode == ValueMode::Sequence {
            self.mode = ValueMode::Tuple(len);
            Ok(())
        } else {
            Err(Error::message("a tuple was requested outside a sequence"))
        }
    }

    /// Ends a tuple: reading goes on in the sequence around it. Outside a
    /// tuple this is refused and nothing changes.
    pub fn end_tuple(&mut self) -> (r: Result<(), Error>)
        ensures
            r is Ok <==> old(self).mode() is Tuple,
            r is Err ==> r matches Err(Error::Message(_)),
            final(self).frags() == old(self).frags(),
            final(self).mode() == if r is Ok {
                ValueMode::Sequence
            } else {
                old(self).mode()
            },
    {
        if let ValueMode::Tuple(_) = self.mode {
            self.mode = ValueMode::Sequence;
            Ok(())
        } else {
            Err(Error::message("a tuple was ended outside a tuple"))
        }
    }

    /// Whether an element comes next: in a sequence, whether a non-blank
    /// fragment is left (the blank ones are dropped); in a tuple, whether a
    /// slot is left.
    pub fn next_element(&mut self) -> (r: Result<bool, Error>)
        ensures
            final(self).mode() == old(self).mode(),
            r is Err <==> old(self).mode() == ValueMode::WholeText,
            r is Err ==> r matches Err(Error::Message(_)),
            r is Err ==> final(self).frags() == old(self).frags(),
            old(self).mode() == ValueMode::Sequence ==> final(self).frags() == drop_blank(
                old(self).frags(),
            ) && r == Ok::<bool, Error>(drop_blank(old(self).frags()).len() > 0),
            old(self).mode() matches ValueMode::Tuple(n) ==> final(self).frags() == old(self).frags() && r == Ok::<bool, Error>(n > 0),
    {
        match self.mode {
            ValueMode::Sequence => {
                self.trim_start();
                Ok(!self.is_empty())
            },
            ValueMode::Tuple(n) => Ok(n > 0),
            ValueMode::WholeText => Err(Error::message("an element was requested outside a sequence")),
        }
    }

    /// Marks the end of one element: a tuple has one slot less.
    pub fn element_done(&mut self)
        ensures
            final(self).frags() == old(self).frags(),
            final(self).mode() == match old(self).mode() {
                ValueMode::Tuple(n) => if n > 0 {
                    ValueMode::Tuple((n - 1) as usize)
                } else {
                    ValueMode::Tuple(0)
                },
                m => m,
            },
    {
        if let ValueMode::Tuple(n) = self.mode {
            if n > 0 {
                self.mode = ValueMode::Tuple(n - 1);
            }
        }
    }
}

/// The key that folded key `k` stands for: the first declared name whose
/// folded form is `k`, else `k` itself.
pub open spec fn matched(k: Seq<char>, names: Seq<Seq<char>>, folded: Seq<Seq<char>>) -> Seq<char>
    decreases names.len(),
{
    if names.len() == 0 || folded.len() == 0 {
        k
    } else if folded[0] == k {
        names[0]
    } else {
        matched(k, names.drop_first(), folded.drop_first())
    }
}

pub open spec fn string_views(v: Seq<String>) -> Seq<Seq<char>> {
    v.map_values(|s: String| s@)
}

/// The key that raw key `raw` is offered as: its folded form, mapped back to
/// a declared field name when `known` declares one that folds the same.
pub open spec fn key_for(raw: Seq<char>, known: Option<Seq<Seq<char>>>) -> Seq<char> {
    match known {
        None => fold_of(raw),
        Some(ns) => matched(fold_of(raw), ns, ns.map_values(|n: Seq<char>| fold_of(n))),
    }
}

/// The key that folded key `folded_key` stands for, among the declared
/// `names` whose folded forms are `folded_names`.
pub fn match_folded(folded_key: String, names: &Vec<String>, folded_names: &Vec<String>) -> (r:
    String)
    requires
        names.len() == folded_names.len(),
    ensures
        r@ == matched(folded_key@, string_views(names@), string_views(folded_names@)),
{
    let ghost ns = string_views(names@);
    let ghost fs = string_views(folded_names@);
    let mut i: usize = 0;
    assert(ns.subrange(0, ns.len() as int) =~= ns);
    assert(fs.subrange(0, fs.len() as int) =~= fs);
    while i < names.len()
        invariant
            i <= names.len() == folded_names.len(),
            ns == string_views(names@),
            fs == string_views(folded_names@),
            matched(folded_key@, ns, fs) == matched(
                folded_key@,
                ns.subrange(i as int, ns.len() as int),
                fs.subrange(i as int, fs.len() as int),
            ),
        decreases names.len() - i,
    {
        let ghost nsub = ns.subrange(i as int, ns.len() as int);
        let ghost fsub = fs.subrange(i as int, fs.len() as int);
        assert(nsub.drop_first() =~= ns.subrange(i + 1, ns.len() as int));
        assert(fsub.drop_first() =~= fs.subrange(i + 1, fs.len() as int));
        assert(fsub[0] == folded_names@[i as int]@);
        if folded_names[i] == folded_key {
            assert(nsub[0] == names@[i as int]@);
            return names[i].clone();
        }
        i = i + 1;
    }
    folded_key
}

/// The key that raw key `raw` is offered as, with or without declared names.
pub fn match_key(raw: &Vec<char>, known: &Option<Vec<String>>) -> (r: String)
    ensures
        r@ == key_for(
            raw@,
            match known {
                Some(ns) => Some(string_views(ns@)),
                None => None,
            },
        ),
{
    let k = fold_key(raw);
    match known {
        None => k,
        Some(names) => {
            let mut folded: Vec<String> = Vec::new();
            let mut i: usize = 0;
            while i < names.len()
                invariant
                    i <= names.len(),
                    folded@.len() == i,
                    forall|j: int| 0 <= j < i ==> (#[trigger] folded@[j])@ == fold_of(names@[j]@),
                decreases names.len() - i,
            {
                folded.push(fold(names[i].as_str()));
                i = i + 1;
            }
            let r = match_folded(k, names, &folded);
            assert(string_views(folded@) =~= string_views(names@).map_values(
                |n: Seq<char>| fold_of(n),
            ));
            r
        },
    }
}

/// A key offered to the caller.
pub struct DeserializerKey {
    key: String,
}

impl DeserializerKey {
    pub closed spec fn view_key(&self) -> Seq<char> {
        self.key@
    }

    pub fn new(key: String) -> (r: Self)
        ensures
            r.view_key() == key@,
    {
        DeserializerKey { key }
    }

    /// The text of the key.
    pub fn into_key(self) -> (r: String)
        ensures
            r@ == self.view_key(),
    {
        self.key
    }
}

/// The fields and stanza boundaries of a text, handed out as the caller asks
/// for keys, values and the ends of stanzas.
pub struct Deserializer {
    it: Iter,
    known: Option<Vec<String>>,
}

impl Deserializer {
    /// The fields and boundaries still to come (`None` is a boundary).
    pub closed spec fn upcoming(&self) -> Seq<Option<FieldV>> {
        self.it.upcoming()
    }

    /// The line without a colon that comes after them, if any.
    pub closed spec fn error(&self) -> Option<usize> {
        self.it.error()
    }

    /// The field names that the current stanza request declares, if any.
    pub closed spec fn known(&self) -> Option<Seq<Seq<char>>> {
        match self.known {
            Some(v) => Some(string_views(v@)),
            None => None,
        }
    }

    /// Whether nothing is left: no field, boundary or error.
    pub open spec fn exhausted(&self) -> bool {
        self.upcoming().len() == 0 && self.error() is None
    }

    pub fn from_str(input: &str) -> (r: Self)
        ensures
            r.upcoming() == grouped(input@).events,
            match r.error() {
                Some(n) => grouped(input@).err == Some(n as nat),
                None => grouped(input@).err is None,
            },
            r.known() is None,
    {
        Deserializer { it: iter_from_str(input), known: None }
    }

    /// Whether another stanza comes: a field is next, or the line without a
    /// colon that a stanza request will report.
    pub fn has_stanza(&self) -> (r: bool)
        ensures
            r == if self.upcoming().len() > 0 {
                self.upcoming()[0] is Some
            } else {
                self.error() is Some
            },
    {
        match self.it.peek() {
            None => false,
            Some(Ok(None)) => false,
            Some(Ok(Some(_))) => true,
            Some(Err(_)) => true,
        }
    }

    /// The key of the next field of the stanza, which stays next; `None` at
    /// the end of the stanza; the missing colon when grouping stopped there.
    pub fn next_key(&mut self) -> (r: Result<Option<DeserializerKey>, Error>)
        ensures
            final(self).known() == old(self).known(),
            old(self).upcoming().len() > 0 ==> final(self).upcoming() == old(self).upcoming()
                && final(self).error() == old(self).error(),
            old(self).upcoming().len() > 0 ==> match old(self).upcoming()[0] {
                Some(f) => (r matches Ok(Some(k)) && k.view_key() == key_for(
                    f.key,
                    old(self).known(),
                )),
                None => r matches Ok(None),
            },
            old(self).upcoming().len() == 0 ==> final(self).exhausted(),
            old(self).upcoming().len() == 0 ==> match old(self).error() {
                Some(n) => r == Err::<Option<DeserializerKey>, Error>(Error::MissingColon(n)),
                None => r matches Ok(None),
            },
    {
        let key = match self.it.peek() {
            None => {
                return Ok(None);
            },
            Some(Ok(None)) => {
                return Ok(None);
            },
            Some(Err(_)) => None,
            Some(Ok(Some(f))) => Some(match_key(&f.key, &self.known)),
        };
        match key {
            Some(k) => Ok(Some(DeserializerKey::new(k))),
            None => match self.it.next() {
                Some(Err(e)) => Err(e),
                _ => Ok(None),
            },
        }
    }

    /// The value of the next field, which is consumed, to be read as one text
    /// unless the caller asks otherwise.
    pub fn next_value(&mut self) -> (r: Result<DeserializerValue, Error>)
        ensures
            final(self).known() == old(self).known(),
            final(self).error() == old(self).error(),
            old(self).upcoming().len() > 0 && old(self).upcoming()[0] is Some ==> (r matches Ok(v) && v.frags() == old(self).upcoming()[0]->Some_0.frags && v.mode()
                == ValueMode::WholeText),
            old(self).upcoming().len() > 0 && old(self).upcoming()[0] is Some ==> final(self).upcoming() == old(self).upcoming().drop_first(),
            !(old(self).upcoming().len() > 0 && old(self).upcoming()[0] is Some) ==> (r matches Err(
                Error::Message(_),
            ) && final(self).upcoming() == old(self).upcoming()),
    {
        let is_field = match self.it.peek() {
            Some(Ok(Some(_))) => true,
            _ => false,
        };
        if !is_field {
            return Err(Error::message("a value was requested without a key"));
        }
        match self.it.next() {
            Some(Ok(Some(f))) => Ok(DeserializerValue::new(f.value)),
            _ => Err(Error::message("a value was requested without a key")),
        }
    }

    /// Consumes the end of a stanza: a boundary, or the end of the text. Any
    /// other item means the stanza was not read to its end.
    pub fn end_stanza(&mut self) -> (r: Result<(), Error>)
        ensures
            final(self).known() == old(self).known(),
            r is Ok <==> (old(self).exhausted() || (old(self).upcoming().len() > 0 && old(self).upcoming()[0] is None)),
            r is Err ==> r == Err::<(), Error>(Error::ExpectedStanzaEnd),
            old(self).upcoming().len() > 0 ==> final(self).upcoming() == old(self).upcoming().drop_first() && final(self).error() == old(self).error(),
            old(self).upcoming().len() == 0 ==> final(self).exhausted(),
    {
        match self.it.next() {
            None => Ok(()),
            Some(Ok(None)) => Ok(()),
            _ => Err(Error::ExpectedStanzaEnd),
        }
    }

    /// Whether nothing is left of the text.
    pub fn is_exhausted(&self) -> (r: bool)
        ensures
            r == self.exhausted(),
    {
        self.it.peek().is_none()
    }

    /// Declares the field names of the stanza about to be read.
    pub fn set_known_keys(&mut self, names: Vec<String>)
        ensures
            final(self).known() == Some(string_views(names@)),
            final(self).upcoming() == old(self).upcoming(),
            final(self).error() == old(self).error(),
    {
        self.known = Some(names);
    }

    /// Forgets the declared field names.
    pub fn clear_known_keys(&mut self)
        ensures
            final(self).known() is None,
            final(self).upcoming() == old(self).upcoming(),
            final(self).error() == old(self).error(),
    {
        self.known = None;
    }
}

} // verus!
