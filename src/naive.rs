//! Line splitting and line grouping: raw text to fields and stanza boundaries.
use vstd::prelude::*;

use crate::error::Error;
use crate::text::{
    blank_range, is_blank, join_value, slice_chars, string_of, trim, trimmed, views, whole_text,
};

verus! {

/// A line without its `\r` terminator, if it has one.
pub open spec fn strip_cr(l: Seq<char>) -> Seq<char> {
    if l.len() > 0 && l.last() == '\r' {
        l.drop_last()
    } else {
        l
    }
}

/// Lines finished by a `\n` so far, and the text of the unfinished line.
pub open spec fn split_acc(s: Seq<char>) -> (Seq<Seq<char>>, Seq<char>)
    decreases s.len(),
{
    if s.len() == 0 {
        (Seq::empty(), Seq::empty())
    } else {
        let (done, cur) = split_acc(s.drop_last());
        if s.last() == '\n' {
            (done.push(strip_cr(cur)), Seq::empty())
        } else {
            (done, cur.push(s.last()))
        }
    }
}

/// The lines of `s`: split at `\n`, a `\r` before it dropped, no empty last
/// line after a final `\n`.
pub open spec fn lines_of(s: Seq<char>) -> Seq<Seq<char>> {
    let (done, cur) = split_acc(s);
    if cur.len() == 0 {
        done
    } else {
        done.push(cur)
    }
}

/// What a field is made of: its line number (from 0), its key with the
/// surrounding whitespace removed, and its value fragments.
pub struct FieldV {
    pub line: nat,
    pub key: Seq<char>,
    pub frags: Seq<Seq<char>>,
}

/// One field of a stanza.
pub struct Field {
    pub line: usize,
    pub key: Vec<char>,
    pub value: Vec<Vec<char>>,
}

impl View for Field {
    type V = FieldV;

    open spec fn view(&self) -> FieldV {
        FieldV { line: self.line as nat, key: self.key@, frags: views(self.value@) }
    }
}

/// `None` stands for a stanza boundary.
pub open spec fn event_view(e: Option<Field>) -> Option<FieldV> {
    match e {
        Some(f) => Some(f@),
        None => None,
    }
}

pub open spec fn events_view(v: Seq<Option<Field>>) -> Seq<Option<FieldV>> {
    v.map_values(|e: Option<Field>| event_view(e))
}

pub open spec fn is_comment(l: Seq<char>) -> bool {
    l.len() > 0 && l[0] == '#'
}

/// `i` is the position of the first `:` of `l`.
pub open spec fn first_colon_at(l: Seq<char>, i: int) -> bool {
    &&& 0 <= i < l.len()
    &&& l[i] == ':'
    &&& forall|j: int| 0 <= j < i ==> l[j] != ':'
}

pub open spec fn has_colon(l: Seq<char>) -> bool {
    exists|i: int| 0 <= i < l.len() && l[i] == ':'
}

pub open spec fn colon_index(l: Seq<char>) -> int {
    choose|i: int| first_colon_at(l, i)
}

/// `v` without one leading space, if it has one.
pub open spec fn strip_space(v: Seq<char>) -> Seq<char> {
    if v.len() > 0 && v[0] == ' ' {
        v.drop_first()
    } else {
        v
    }
}

/// The field that a key line `l`, holding a colon, starts.
pub open spec fn field_of(n: nat, l: Seq<char>) -> FieldV {
    let c = colon_index(l);
    FieldV {
        line: n,
        key: trim(l.subrange(0, c)),
        frags: seq![strip_space(l.subrange(c + 1, l.len() as int))],
    }
}

/// The state of the grouping after some lines: the fields and boundaries
/// produced, whether a non-blank line was seen, whether the last line that
/// counted was blank, whether the last field still takes continuation lines,
/// and the line that had no colon, if any.
pub struct GroupState {
    pub events: Seq<Option<FieldV>>,
    pub started: bool,
    pub in_blank: bool,
    pub open: bool,
    pub err: Option<nat>,
}

pub open spec fn initial_state() -> GroupState {
    GroupState { events: Seq::empty(), started: false, in_blank: false, open: false, err: None }
}

/// The field `f` with one more fragment.
pub open spec fn with_frag(f: FieldV, l: Seq<char>) -> FieldV {
    FieldV { frags: f.frags.push(l), ..f }
}

/// The effect of line `l`, numbered `n`, on the grouping.
pub open spec fn step(st: GroupState, n: nat, l: Seq<char>) -> GroupState {
    if st.err is Some {
        st
    } else if is_comment(l) {
        GroupState { open: false, ..st }
    } else if is_blank(l) {
        if st.started && !st.in_blank {
            GroupState { events: st.events.push(None), in_blank: true, open: false, ..st }
        } else {
            GroupState { open: false, ..st }
        }
    } else if st.open && l[0] == ' ' {
        GroupState {
            events: st.events.update(
                st.events.len() - 1,
                Some(with_frag(st.events.last()->Some_0, l.drop_first())),
            ),
            ..st
        }
    } else if has_colon(l) {
        GroupState {
            events: st.events.push(Some(field_of(n, l))),
            started: true,
            in_blank: false,
            open: true,
            err: None,
        }
    } else {
        GroupState { err: Some(n), open: false, ..st }
    }
}

/// The grouping after the first `k` lines.
pub open spec fn group_upto(lines: Seq<Seq<char>>, k: nat) -> GroupState
    decreases k,
{
    if k == 0 {
        initial_state()
    } else {
        step(group_upto(lines, (k - 1) as nat), (k - 1) as nat, lines[k - 1])
    }
}

pub open spec fn group(lines: Seq<Seq<char>>) -> GroupState {
    group_upto(lines, lines.len())
}

/// The grouping of a whole text.
pub open spec fn grouped(s: Seq<char>) -> GroupState {
    group(lines_of(s))
}

/// The lines of `s`.
pub fn split_lines(s: &Vec<char>) -> (r: Vec<Vec<char>>)
    ensures
        views(r@) == lines_of(s@),
{
    let mut r: Vec<Vec<char>> = Vec::new();
    let mut start: usize = 0;
    let mut i: usize = 0;
    while i < s.len()
        invariant
            start <= i <= s.len(),
            split_acc(s@.subrange(0, i as int)) == (views(r@), s@.subrange(
                start as int,
                i as int,
            )),
        decreases s.len() - i,
    {
        let ghost before = views(r@);
        assert(s@.subrange(0, i + 1).drop_last() =~= s@.subrange(0, i as int));
        if s[i] == '\n' {
            let mut end = i;
            if end > start && s[end - 1] == '\r' {
                end = end - 1;
            }
            let line = slice_chars(s, start, end);
            r.push(line);
            assert(views(r@) =~= before.push(strip_cr(s@.subrange(start as int, i as int))))
                by {
                if i > start && s@[i - 1] == '\r' {
                    assert(s@.subrange(start as int, i as int).drop_last() =~= s@.subrange(
                        start as int,
                        end as int,
                    ));
                }
            }
            i = i + 1;
            start = i;
            assert(s@.subrange(start as int, i as int) =~= Seq::<char>::empty());
        } else {
            i = i + 1;
            assert(s@.subrange(start as int, i as int) =~= s@.subrange(
                start as int,
                i - 1,
            ).push(s@[i - 1]));
        }
    }
    assert(s@.subrange(0, s.len() as int) =~= s@);
    if start < s.len() {
        let ghost before = views(r@);
        let line = slice_chars(s, start, s.len());
        r.push(line);
        assert(views(r@) =~= before.push(s@.subrange(start as int, s.len() as int)));
    }
    r
}

/// The last field, while it still takes continuation lines.
pub open spec fn pending(cur: Option<Field>) -> Seq<Option<FieldV>> {
    match cur {
        Some(f) => seq![Some(f@)],
        None => Seq::empty(),
    }
}

proof fn lemma_colon_index(l: Seq<char>, i: int)
    requires
        first_colon_at(l, i),
    ensures
        colon_index(l) == i,
        has_colon(l),
{
    let j = colon_index(l);
    assert(first_colon_at(l, j));
    if j < i {
        assert(l[j] != ':');
    } else if i < j {
        assert(l[i] != ':');
    }
}

/// The position of the first `:` of `l`.
fn find_colon(l: &Vec<char>) -> (r: Option<usize>)
    ensures
        match r {
            Some(i) => first_colon_at(l@, i as int),
            None => !has_colon(l@),
        },
{
    let mut i: usize = 0;
    while i < l.len()
        invariant
            i <= l.len(),
            forall|j: int| 0 <= j < i ==> l@[j] != ':',
        decreases l.len() - i,
    {
        if l[i] == ':' {
            return Some(i);
        }
        i = i + 1;
    }
    None
}

/// The field started by key line `l`, numbered `n`, whose first colon is at `c`.
fn field_from_line(n: usize, l: &Vec<char>, c: usize) -> (f: Field)
    requires
        first_colon_at(l@, c as int),
    ensures
        f@ == field_of(n as nat, l@),
{
    proof {
        lemma_colon_index(l@, c as int);
    }
    assert(c < l.len());
    let key = trimmed(l, 0, c);
    let mut from = c + 1;
    if from < l.len() && l[from] == ' ' {
        from = from + 1;
    }
    let first = slice_chars(l, from, l.len());
    let ghost rest = l@.subrange(c + 1, l@.len() as int);
    assert(first@ =~= strip_space(rest));
    let mut value: Vec<Vec<char>> = Vec::new();
    value.push(first);
    let f = Field { line: n, key, value };
    assert(views(f.value@) =~= seq![strip_space(rest)]);
    f
}

/// Moves the pending field, if any, to the end of `events`.
fn flush(events: &mut Vec<Option<Field>>, cur: Option<Field>)
    ensures
        events_view(final(events)@) == events_view(old(events)@) + pending(cur),
{
    match cur {
        Some(f) => {
            events.push(Some(f));
        },
        None => {},
    }
    assert(events_view(events@) =~= events_view(old(events)@) + pending(cur));
}

/// Groups lines into fields and stanza boundaries (`None`), and gives the
/// number of the first line without a colon, where grouping stopped.
pub fn group_lines(lines: &Vec<Vec<char>>) -> (r: (Vec<Option<Field>>, Option<usize>))
    ensures
        events_view(r.0@) == group(views(lines@)).events,
        match r.1 {
            Some(n) => group(views(lines@)).err == Some(n as nat),
            None => group(views(lines@)).err is None,
        },
{
    let ghost ls = views(lines@);
    let mut events: Vec<Option<Field>> = Vec::new();
    let mut cur: Option<Field> = None;
    let mut started = false;
    let mut in_blank = false;
    let mut err: Option<usize> = None;
    let mut k: usize = 0;
    while k < lines.len()
        invariant
            k <= lines.len(),
            ls == views(lines@),
            group_upto(ls, k as nat).events == events_view(events@) + pending(cur),
            group_upto(ls, k as nat).open == (cur is Some),
            group_upto(ls, k as nat).started == started,
            group_upto(ls, k as nat).in_blank == in_blank,
            match err {
                Some(n) => group_upto(ls, k as nat).err == Some(n as nat),
                None => group_upto(ls, k as nat).err is None,
            },
        decreases lines.len() - k,
    {
        let ghost st = group_upto(ls, k as nat);
        let l: &Vec<char> = &lines[k];
        assert(ls[k as int] == l@);
        assert(group_upto(ls, (k + 1) as nat) == step(st, k as nat, l@));
        if err.is_none() {
            let len = l.len();
            if len > 0 && l[0] == '#' {
                flush(&mut events, cur);
                cur = None;
            } else if blank_range(l, 0, len) {
                assert(l@.subrange(0, len as int) =~= l@);
                flush(&mut events, cur);
                cur = None;
                if started && !in_blank {
                    events.push(None);
                    in_blank = true;
                }
                assert(group_upto(ls, (k + 1) as nat).events =~= events_view(events@) + pending(
                    cur,
                ));
            } else {
                assert(l@.subrange(0, len as int) =~= l@);
                if cur.is_some() && l[0] == ' ' {
                    let mut f = cur.unwrap();
                    let ghost f0 = f@;
                    let frag = slice_chars(l, 1, len);
                    assert(frag@ =~= l@.drop_first());
                    let ghost vs0 = f.value@;
                    f.value.push(frag);
                    assert(views(f.value@) =~= views(vs0).push(l@.drop_first()));
                    assert(f@ =~= with_frag(f0, l@.drop_first()));
                    cur = Some(f);
                    assert(group_upto(ls, (k + 1) as nat).events =~= events_view(events@)
                        + pending(cur));
                } else {
                    match find_colon(l) {
                        Some(c) => {
                            let f = field_from_line(k, l, c);
                            proof {
                                lemma_colon_index(l@, c as int);
                            }
                            flush(&mut events, cur);
                            cur = Some(f);
                            started = true;
                            in_blank = false;
                            assert(group_upto(ls, (k + 1) as nat).events =~= events_view(events@)
                                + pending(cur));
                        },
                        None => {
                            flush(&mut events, cur);
                            cur = None;
                            err = Some(k);
                            assert(group_upto(ls, (k + 1) as nat).events =~= events_view(events@)
                                + pending(cur));
                        },
                    }
                }
            }
        }
        k = k + 1;
    }
    flush(&mut events, cur);
    assert(events_view(events@) =~= group(ls).events);
    (events, err)
}

/// Forward access, one item at a time, to the fields and stanza boundaries of
/// a text, ending with the line without a colon, if there is one.
pub struct Iter {
    rev: Vec<Option<Field>>,
    err: Option<usize>,
}

impl Iter {
    /// The fields and boundaries still to come, in order.
    pub closed spec fn upcoming(&self) -> Seq<Option<FieldV>> {
        let v = events_view(self.rev@);
        Seq::new(v.len(), |i: int| v[v.len() - 1 - i])
    }

    /// The line without a colon that comes after them, if any.
    pub closed spec fn error(&self) -> Option<usize> {
        self.err
    }

    /// The next item, without moving past it.
    pub fn peek(&self) -> (r: Option<Result<Option<&Field>, Error>>)
        ensures
            self.upcoming().len() > 0 ==> match r {
                Some(Ok(Some(f))) => self.upcoming()[0] == Some(f@),
                Some(Ok(None)) => self.upcoming()[0] is None,
                _ => false,
            },
            self.upcoming().len() == 0 ==> match self.error() {
                Some(n) => match r {
                    Some(Err(e)) => e == Error::MissingColon(n),
                    _ => false,
                },
                None => r is None,
            },
    {
        let n = self.rev.len();
        if n > 0 {
            match &self.rev[n - 1] {
                Some(f) => Some(Ok(Some(f))),
                None => Some(Ok(None)),
            }
        } else {
            match self.err {
                Some(line) => Some(Err(Error::MissingColon(line))),
                None => None,
            }
        }
    }

    /// The next item; an error ends the sequence.
    pub fn next(&mut self) -> (r: Option<Result<Option<Field>, Error>>)
        ensures
            old(self).upcoming().len() > 0 ==> match r {
                Some(Ok(e)) => event_view(e) == old(self).upcoming()[0],
                _ => false,
            },
            old(self).upcoming().len() > 0 ==> final(self).upcoming()
                == old(self).upcoming().drop_first(),
            old(self).upcoming().len() > 0 ==> final(self).error() == old(self).error(),
            old(self).upcoming().len() == 0 ==> final(self).upcoming().len() == 0,
            old(self).upcoming().len() == 0 ==> final(self).error() is None,
            old(self).upcoming().len() == 0 ==> match old(self).error() {
                Some(n) => match r {
                    Some(Err(e)) => e == Error::MissingColon(n),
                    _ => false,
                },
                None => r is None,
            },
    {
        match self.rev.pop() {
            Some(e) => {
                assert(final(self).upcoming() =~= old(self).upcoming().drop_first());
                Some(Ok(e))
            },
            None => {
                let r = match self.err {
                    Some(line) => Some(Err(Error::MissingColon(line))),
                    None => None,
                };
                self.err = None;
                r
            },
        }
    }
}

/// The items of text `s`.
pub fn iter_from_str(s: &str) -> (r: Iter)
    ensures
        r.upcoming() == grouped(s@).events,
        match r.error() {
            Some(n) => grouped(s@).err == Some(n as nat),
            None => grouped(s@).err is None,
        },
{
    let chars = crate::text::chars_of(s);
    let lines = split_lines(&chars);
    let (mut events, err) = group_lines(&lines);
    let ghost evs = events_view(events@);
    let mut rev: Vec<Option<Field>> = Vec::new();
    while events.len() > 0
        invariant
            events_view(events@) == evs.subrange(0, events@.len() as int),
            rev@.len() + events@.len() == evs.len(),
            forall|i: int| 0 <= i < rev@.len() ==> #[trigger] event_view(rev@[i]) == evs[evs.len() - 1 - i],
        decreases events.len(),
    {
        let ghost before = events@;
        let e = events.pop().unwrap();
        assert(event_view(e) == events_view(before)[before.len() - 1]);
        rev.push(e);
        assert(events_view(events@) =~= evs.subrange(0, events@.len() as int));
    }
    let r = Iter { rev, err };
    assert(r.upcoming() =~= evs);
    r
}

/// Case folding of a text, as ICU's full locale-independent folding gives it.
pub uninterp spec fn fold_of(s: Seq<char>) -> Seq<char>;

/// Relies on `icu_casemap::CaseMapper::fold_string`: full, locale-independent
/// case folding, which depends on the characters of its argument alone.
#[verifier::external_body]
pub(crate) fn fold(s: &str) -> (r: String)
    ensures
        r@ == fold_of(s@),
{
    icu_casemap::CaseMapper::new().fold_string(s)
}

/// The folded form of a key.
pub fn fold_key(key: &Vec<char>) -> (r: String)
    ensures
        r@ == fold_of(key@),
{
    let s = string_of(key);
    fold(s.as_str())
}

/// Stanzas closed so far and the fields of the open one.
pub open spec fn stanza_acc(evs: Seq<Option<FieldV>>) -> (Seq<Seq<FieldV>>, Seq<FieldV>)
    decreases evs.len(),
{
    if evs.len() == 0 {
        (Seq::empty(), Seq::empty())
    } else {
        let (done, cur) = stanza_acc(evs.drop_last());
        match evs.last() {
            Some(f) => (done, cur.push(f)),
            None => if cur.len() > 0 {
                (done.push(cur), Seq::empty())
            } else {
                (done, cur)
            },
        }
    }
}

/// The fields and boundaries cut into stanzas: the non-empty runs of fields
/// between boundaries.
pub open spec fn stanzas(evs: Seq<Option<FieldV>>) -> Seq<Seq<FieldV>> {
    let (done, cur) = stanza_acc(evs);
    if cur.len() > 0 {
        done.push(cur)
    } else {
        done
    }
}

/// A field as a pair of its folded key and its text.
pub open spec fn entry(f: FieldV) -> (Seq<char>, Seq<char>) {
    (fold_of(f.key), whole_text(f.frags))
}

pub open spec fn entries(fs: Seq<FieldV>) -> Seq<(Seq<char>, Seq<char>)> {
    fs.map_values(|f: FieldV| entry(f))
}

pub open spec fn pairs_view(v: Seq<(String, String)>) -> Seq<(Seq<char>, Seq<char>)> {
    v.map_values(|p: (String, String)| (p.0@, p.1@))
}

/// The digit `d` as a character.
pub open spec fn digit_char(d: nat) -> char {
    if d == 0 { '0' } else if d == 1 { '1' } else if d == 2 { '2' } else if d == 3 { '3' }
    else if d == 4 { '4' } else if d == 5 { '5' } else if d == 6 { '6' } else if d == 7 { '7' }
    else if d == 8 { '8' } else { '9' }
}

/// The decimal digits of `n`.
pub open spec fn decimal(n: nat) -> Seq<char>
    decreases n,
{
    if n < 10 {
        seq![digit_char(n)]
    } else {
        decimal(n / 10).push(digit_char(n % 10))
    }
}

fn push_decimal(out: &mut Vec<char>, n: usize)
    ensures
        final(out)@ == old(out)@ + decimal(n as nat),
    decreases n,
{
    if n >= 10 {
        push_decimal(out, n / 10);
    }
    let d = n % 10;
    let c = if d == 0 { '0' } else if d == 1 { '1' } else if d == 2 { '2' } else if d == 3 { '3' }
    else if d == 4 { '4' } else if d == 5 { '5' } else if d == 6 { '6' } else if d == 7 { '7' }
    else if d == 8 { '8' } else { '9' };
    out.push(c);
    assert(out@ =~= old(out)@ + decimal(n as nat));
}

/// The message for a line without a colon.
pub open spec fn missing_colon_message(n: nat) -> Seq<char> {
    "Missing colon at line "@ + decimal(n)
}

/// The message for a line `n` without a colon.
pub fn missing_colon_text(n: usize) -> (r: String)
    ensures
        r@ == missing_colon_message(n as nat),
{
    let mut out = crate::text::chars_of("Missing colon at line ");
    push_decimal(&mut out, n);
    string_of(&out)
}

/// Reads text `s` as a list of stanzas, each the list of its fields as pairs of
/// folded key and text, in the order of the source; or the message naming the
/// first line without a colon.
pub fn from_str(s: &str) -> (r: Result<Vec<Vec<(String, String)>>, String>)
    ensures
        match r {
            Ok(v) => grouped(s@).err is None && v@.len() == stanzas(grouped(s@).events).len()
                && forall|i: int|
                0 <= i < v@.len() ==> pairs_view(#[trigger] v@[i]@) == entries(
                    stanzas(grouped(s@).events)[i],
                ),
            Err(m) => exists|n: nat| grouped(s@).err == Some(n) && m@ == missing_colon_message(n),
        },
{
    let chars = crate::text::chars_of(s);
    let lines = split_lines(&chars);
    let (events, err) = group_lines(&lines);
    if let Some(n) = err {
        return Err(missing_colon_text(n));
    }
    let ghost evs = events_view(events@);
    let mut done: Vec<Vec<(String, String)>> = Vec::new();
    let mut cur: Vec<(String, String)> = Vec::new();
    let mut k: usize = 0;
    while k < events.len()
        invariant
            k <= events.len(),
            evs == events_view(events@),
            done@.len() == stanza_acc(evs.subrange(0, k as int)).0.len(),
            forall|i: int|
                0 <= i < done@.len() ==> pairs_view(#[trigger] done@[i]@) == entries(
                    stanza_acc(evs.subrange(0, k as int)).0[i],
                ),
            pairs_view(cur@) == entries(stanza_acc(evs.subrange(0, k as int)).1),
        decreases events.len() - k,
    {
        let ghost pre = evs.subrange(0, k as int);
        assert(evs.subrange(0, k + 1).drop_last() =~= pre);
        assert(evs[k as int] == event_view(events@[k as int]));
        assert(evs.subrange(0, k + 1).last() == evs[k as int]);
        match &events[k] {
            Some(f) => {
                assert(evs[k as int] == Some(f@));
                let ghost acc0 = stanza_acc(pre);
                assert(stanza_acc(evs.subrange(0, k + 1)) == (acc0.0, acc0.1.push(f@)));
                let key = fold_key(&f.key);
                let text = join_value(&f.value);
                let ghost c0 = cur@;
                cur.push((key, text));
                assert(pairs_view(cur@) =~= pairs_view(c0).push(entry(f@)));
                assert(pairs_view(cur@) =~= entries(stanza_acc(evs.subrange(0, k + 1)).1));
            },
            None => {
                assert(evs[k as int] is None);
                let ghost acc0 = stanza_acc(pre);
                assert(stanza_acc(evs.subrange(0, k + 1)) == (if acc0.1.len() > 0 {
                    (acc0.0.push(acc0.1), Seq::<FieldV>::empty())
                } else {
                    acc0
                }));
                if cur.len() > 0 {
                    let ghost d0 = done@;
                    done.push(cur);
                    cur = Vec::new();
                    assert(pairs_view(cur@) =~= entries(Seq::empty()));
                    assert forall|i: int| 0 <= i < done@.len() implies pairs_view(
                        #[trigger] done@[i]@,
                    ) == entries(stanza_acc(evs.subrange(0, k + 1)).0[i]) by {
                        if i < d0.len() {
                            assert(done@[i] == d0[i]);
                        }
                    }
                }
            },
        }
        k = k + 1;
    }
    assert(evs.subrange(0, events.len() as int) =~= evs);
    if cur.len() > 0 {
        let ghost d0 = done@;
        done.push(cur);
        assert forall|i: int| 0 <= i < done@.len() implies pairs_view(#[trigger] done@[i]@)
            == entries(stanzas(evs)[i]) by {
            if i < d0.len() {
                assert(done@[i] == d0[i]);
            }
        }
    } else {
        assert(pairs_view(cur@).len() == 0);
    }
    Ok(done)
}

} // verus!
