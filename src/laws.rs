//! What holds of every text: stanza counts, continuation lines, the line
//! that lacks a colon, comments and blank lines, and key matching.
use vstd::prelude::*;

use crate::de::{key_for, matched};
use crate::naive::{
    field_of, first_colon_at, fold_of, group, group_upto, has_colon, is_comment,
    stanza_acc, stanzas, step, FieldV, GroupState,
};
use crate::text::{is_blank, is_ws, join_lines, whole_text};

verus! {

/// A line that belongs to a paragraph: neither blank nor a comment.
pub open spec fn is_content(l: Seq<char>) -> bool {
    !is_blank(l) && !is_comment(l)
}

/// Paragraphs begun in the first `k` lines, and whether the last line that
/// was not a comment belongs to a paragraph.
pub open spec fn paragraphs_upto(lines: Seq<Seq<char>>, k: nat) -> (nat, bool)
    decreases k,
{
    if k == 0 {
        (0, false)
    } else {
        let (n, inside) = paragraphs_upto(lines, (k - 1) as nat);
        let l = lines[k - 1];
        if is_comment(l) {
            (n, inside)
        } else if is_blank(l) {
            (n, false)
        } else if inside {
            (n, true)
        } else {
            (n + 1, true)
        }
    }
}

/// The number of paragraphs: runs of content lines that blank lines
/// separate, comment lines being transparent.
pub open spec fn paragraph_count(lines: Seq<Seq<char>>) -> nat {
    paragraphs_upto(lines, lines.len()).0
}

/// The number of stanza boundaries among fields and boundaries.
pub open spec fn boundary_count(evs: Seq<Option<FieldV>>) -> nat
    decreases evs.len(),
{
    if evs.len() == 0 {
        0
    } else {
        boundary_count(evs.drop_last()) + (if (evs.last() is None) {
            1nat
        } else {
            0nat
        })
    }
}

proof fn lemma_stanza_acc_push(evs: Seq<Option<FieldV>>, e: Option<FieldV>)
    ensures
        boundary_count(evs.push(e)) == boundary_count(evs) + (if (e is None) {
            1nat
        } else {
            0nat
        }),
        stanza_acc(evs.push(e)) == match e {
            Some(f) => (stanza_acc(evs).0, stanza_acc(evs).1.push(f)),
            None => if stanza_acc(evs).1.len() > 0 {
                (stanza_acc(evs).0.push(stanza_acc(evs).1), Seq::<FieldV>::empty())
            } else {
                stanza_acc(evs)
            },
        },
{
    assert(evs.push(e).drop_last() =~= evs);
    assert(evs.push(e).last() == e);
    assert(boundary_count(evs.push(e)) == boundary_count(evs) + (if (e is None) {
        1nat
    } else {
        0nat
    }));
}

proof fn lemma_stanza_acc_update_last(evs: Seq<Option<FieldV>>, f: FieldV)
    requires
        evs.len() > 0,
        evs.last() is Some,
    ensures
        boundary_count(evs.update(evs.len() - 1, Some(f))) == boundary_count(evs),
        stanza_acc(evs.update(evs.len() - 1, Some(f))).0.len() == stanza_acc(evs).0.len(),
        stanza_acc(evs.update(evs.len() - 1, Some(f))).1.len() == stanza_acc(evs).1.len(),
{
    let u = evs.update(evs.len() - 1, Some(f));
    assert(u.drop_last() =~= evs.drop_last());
}

proof fn lemma_count_upto(lines: Seq<Seq<char>>, k: nat)
    requires
        k <= lines.len(),
        group_upto(lines, k).err is None,
    ensures
        ({
            let st = group_upto(lines, k);
            let acc = stanza_acc(st.events);
            let (n, inside) = paragraphs_upto(lines, k);
            &&& inside == (st.started && !st.in_blank)
            &&& (acc.1.len() > 0) == inside
            &&& acc.0.len() + (if inside { 1nat } else { 0nat }) == n
            &&& boundary_count(st.events) + (if inside { 1nat } else { 0nat }) == n
            &&& st.open ==> st.events.len() > 0 && st.events.last() is Some
        }),
    decreases k,
{
    if k > 0 {
        let k1 = (k - 1) as nat;
        let prev = group_upto(lines, k1);
        let l = lines[k1 as int];
        if prev.err is Some {
            assert(group_upto(lines, k) == prev);
        }
        lemma_count_upto(lines, k1);
        assert(group_upto(lines, k) == step(prev, k1, l));
        if is_comment(l) {
        } else if is_blank(l) {
            lemma_stanza_acc_push(prev.events, None);
        } else if prev.open && l[0] == ' ' {
            lemma_stanza_acc_update_last(
                prev.events,
                crate::naive::with_frag(prev.events.last()->Some_0, l.drop_first()),
            );
        } else if has_colon(l) {
            lemma_stanza_acc_push(prev.events, Some(field_of(k1, l)));
        }
    } else {
        assert(boundary_count(group_upto(lines, 0).events) == 0);
    }
}

/// A text read without error has one boundary fewer than it has paragraphs,
/// and one more when it ends in blank lines after its last paragraph.
pub proof fn boundary_count_follows_paragraphs(lines: Seq<Seq<char>>)
    requires
        group(lines).err is None,
    ensures
        boundary_count(group(lines).events) + (if paragraphs_upto(lines, lines.len()).1 {
            1nat
        } else {
            0nat
        }) == paragraph_count(lines),
{
    lemma_count_upto(lines, lines.len());
}

/// A text read without error has as many stanzas as it has paragraphs,
/// whatever blank lines lead, trail or separate them and wherever comment
/// lines stand.
pub proof fn stanza_count_is_paragraph_count(lines: Seq<Seq<char>>)
    requires
        group(lines).err is None,
    ensures
        stanzas(group(lines).events).len() == paragraph_count(lines),
{
    lemma_count_upto(lines, lines.len());
}

/// Lines `i ..= i + rest.len()` of `lines` are a key line `key:` with nothing
/// after the colon, then one continuation line (a space, then text, not
/// blank) for each of `rest`; the line after them, if any, continues nothing.
pub open spec fn continued_field_at(
    lines: Seq<Seq<char>>,
    i: nat,
    key: Seq<char>,
    rest: Seq<Seq<char>>,
) -> bool {
    let end = i + rest.len() + 1;
    &&& end <= lines.len()
    &&& lines[i as int] == key.push(':')
    &&& forall|j: int| 0 <= j < key.len() ==> key[j] != ':'
    &&& key.len() == 0 || (key[0] != '#' && key[0] != ' ')
    &&& forall|j: int|
        0 <= j < rest.len() ==> lines[i + 1 + j] == seq![' '] + #[trigger] rest[j] && !is_blank(
            lines[i + 1 + j],
        )
    &&& end < lines.len() ==> is_blank(lines[end as int]) || lines[end as int].len() == 0
        || lines[end as int][0] != ' '
}

/// The field that such lines give.
pub open spec fn continued_field(i: nat, key: Seq<char>, rest: Seq<Seq<char>>) -> FieldV {
    FieldV { line: i, key: crate::text::trim(key), frags: seq![Seq::<char>::empty()] + rest }
}

proof fn lemma_key_line(lines: Seq<Seq<char>>, i: nat, key: Seq<char>, rest: Seq<Seq<char>>)
    requires
        continued_field_at(lines, i, key, rest),
        group_upto(lines, i).err is None,
    ensures
        group_upto(lines, i + 1) == (GroupState {
            events: group_upto(lines, i).events.push(Some(continued_field(i, key, seq![]))),
            started: true,
            in_blank: false,
            open: true,
            err: None,
        }),
{
    let l0 = key.push(':');
    assert(first_colon_at(l0, key.len() as int));
    assert(has_colon(l0));
    assert(!is_blank(l0)) by {
        assert(!is_ws(l0[key.len() as int]));
    }
    let c = crate::naive::colon_index(l0);
    assert(first_colon_at(l0, c));
    if c < key.len() {
        assert(l0[c] == key[c]);
    }
    assert(c == key.len());
    assert(l0.subrange(0, c) =~= key);
    assert(l0.subrange(c + 1, l0.len() as int) =~= Seq::<char>::empty());
    if key.len() > 0 {
        assert(l0[0] == key[0]);
    }
    assert(!is_comment(l0));
    assert(l0[0] != ' ');
    assert(field_of(i, l0).frags =~= continued_field(i, key, seq![]).frags);
    assert(field_of(i, l0) == continued_field(i, key, seq![]));
}

proof fn lemma_continued(lines: Seq<Seq<char>>, i: nat, key: Seq<char>, rest: Seq<Seq<char>>, j: nat)
    requires
        continued_field_at(lines, i, key, rest),
        group_upto(lines, i).err is None,
        j <= rest.len(),
    ensures
        group_upto(lines, i + 1 + j) == (GroupState {
            events: group_upto(lines, i).events.push(
                Some(continued_field(i, key, rest.subrange(0, j as int))),
            ),
            started: true,
            in_blank: false,
            open: true,
            err: None,
        }),
    decreases j,
{
    if j == 0 {
        lemma_key_line(lines, i, key, rest);
        assert(rest.subrange(0, 0) =~= Seq::<Seq<char>>::empty());
    } else {
        let j1 = (j - 1) as nat;
        lemma_continued(lines, i, key, rest, j1);
        let k = i + 1 + j1;
        let l = lines[k as int];
        assert(l == seq![' '] + rest[j1 as int]);
        assert(!is_comment(l));
        assert(l.drop_first() =~= rest[j1 as int]);
        let prev = group_upto(lines, k);
        assert(group_upto(lines, k + 1) == step(prev, k, l));
        let f1 = continued_field(i, key, rest.subrange(0, j1 as int));
        let f2 = continued_field(i, key, rest.subrange(0, j as int));
        assert(f1.frags.push(rest[j1 as int]) =~= f2.frags);
        assert(step(prev, k, l).events =~= group_upto(lines, i).events.push(Some(f2)));
    }
}

proof fn lemma_prefix_kept(lines: Seq<Seq<char>>, m: nat, k: nat)
    requires
        k <= lines.len(),
        group_upto(lines, k).events.len() > m,
        group_upto(lines, k).open ==> group_upto(lines, k).events.len() > m + 1,
    ensures
        group(lines).events.len() > m,
        group(lines).events[m as int] == group_upto(lines, k).events[m as int],
    decreases lines.len() - k,
{
    if k < lines.len() {
        let st = group_upto(lines, k);
        let l = lines[k as int];
        assert(group_upto(lines, k + 1) == step(st, k, l));
        let nx = step(st, k, l);
        assert(nx.events.len() > m);
        assert(nx.events[m as int] == st.events[m as int]);
        lemma_prefix_kept(lines, m, k + 1);
    }
}

/// Wherever it stands, a key line with nothing after its colon followed by
/// continuation lines (each a space and then text, not blank) gives one
/// field: its line, its trimmed key, an empty first fragment and each
/// continuation without its one leading space. Its text is the continuations
/// joined with `\n`, in order, with nothing else trimmed.
pub proof fn continuation_lines_join(
    lines: Seq<Seq<char>>,
    i: nat,
    key: Seq<char>,
    rest: Seq<Seq<char>>,
)
    requires
        continued_field_at(lines, i, key, rest),
        group_upto(lines, i).err is None,
    ensures
        group(lines).events.len() > group_upto(lines, i).events.len(),
        group(lines).events[group_upto(lines, i).events.len() as int] == Some(
            continued_field(i, key, rest),
        ),
        whole_text(continued_field(i, key, rest).frags) == join_lines(rest),
{
    let m = group_upto(lines, i).events.len();
    let end = i + rest.len() + 1;
    lemma_continued(lines, i, key, rest, rest.len());
    assert(rest.subrange(0, rest.len() as int) =~= rest);
    let st = group_upto(lines, end);
    assert(st.events[m as int] == Some(continued_field(i, key, rest)));
    if end < lines.len() {
        let l = lines[end as int];
        assert(group_upto(lines, end + 1) == step(st, end, l));
        let nx = step(st, end, l);
        assert(nx.events[m as int] == st.events[m as int]);
        lemma_prefix_kept(lines, m, end + 1);
    } else {
        assert(group(lines) == st);
    }
    assert((seq![Seq::<char>::empty()] + rest).drop_first() =~= rest);
}

proof fn lemma_error_line(lines: Seq<Seq<char>>, k: nat, n: nat)
    requires
        k <= lines.len(),
        group_upto(lines, k).err == Some(n),
    ensures
        n < k,
        is_content(lines[n as int]),
        !has_colon(lines[n as int]),
        group_upto(lines, n).err is None,
        group_upto(lines, k).events == group_upto(lines, n).events,
    decreases k,
{
    let k1 = (k - 1) as nat;
    let prev = group_upto(lines, k1);
    if prev.err is Some {
        assert(group_upto(lines, k) == prev);
        lemma_error_line(lines, k1, n);
    } else {
        let l = lines[k1 as int];
        assert(group_upto(lines, k) == step(prev, k1, l));
        assert(n == k1);
    }
}

/// When grouping stops at a line without a colon, that line is one of the
/// text's lines, holds content and no colon, no line before it failed, and
/// nothing after it produces a field or boundary.
pub proof fn missing_colon_stops_at_its_line(lines: Seq<Seq<char>>, n: nat)
    requires
        group(lines).err == Some(n),
    ensures
        n < lines.len(),
        is_content(lines[n as int]),
        !has_colon(lines[n as int]),
        group_upto(lines, n).err is None,
        group(lines).events == group_upto(lines, n).events,
{
    lemma_error_line(lines, lines.len(), n);
}

/// A comment line never adds a field or a boundary, nor does a blank line
/// before the first field; a blank line after a blank line adds nothing.
pub proof fn comments_and_leading_blanks_add_nothing(st: GroupState, n: nat, l: Seq<char>)
    requires
        is_comment(l) || (is_blank(l) && (!st.started || st.in_blank)),
    ensures
        step(st, n, l).events == st.events,
        step(st, n, l).started == st.started,
{
}

/// Keys that fold alike are offered alike; a key that folds as a declared
/// name does (and as no name declared before it) is offered as that name.
pub proof fn keys_match_case_insensitively(
    raw: Seq<char>,
    other: Seq<char>,
    names: Seq<Seq<char>>,
    i: int,
)
    requires
        0 <= i < names.len(),
        fold_of(names[i]) == fold_of(raw),
        forall|j: int| 0 <= j < i ==> fold_of(#[trigger] names[j]) != fold_of(raw),
        fold_of(other) == fold_of(raw),
    ensures
        key_for(raw, Some(names)) == names[i],
        key_for(other, Some(names)) == names[i],
        key_for(other, None) == key_for(raw, None),
{
    let folded = names.map_values(|n: Seq<char>| fold_of(n));
    lemma_matched_first(fold_of(raw), names, folded, i);
}

proof fn lemma_matched_first(k: Seq<char>, names: Seq<Seq<char>>, folded: Seq<Seq<char>>, i: int)
    requires
        0 <= i < names.len() == folded.len(),
        folded[i] == k,
        forall|j: int| 0 <= j < i ==> #[trigger] folded[j] != k,
    ensures
        matched(k, names, folded) == names[i],
    decreases i,
{
    if i > 0 {
        assert(folded[0] != k);
        lemma_matched_first(k, names.drop_first(), folded.drop_first(), i - 1);
    }
}

/// The shape of the fields and boundaries produced from lines: every field
/// comes from a content line that holds a colon, the first item is no
/// boundary, and no two boundaries are adjacent.
pub open spec fn well_placed(lines: Seq<Seq<char>>, evs: Seq<Option<FieldV>>) -> bool {
    &&& forall|i: int|
        0 <= i < evs.len() && (#[trigger] evs[i]) is Some ==> ({
            let f = evs[i]->Some_0;
            &&& f.line < lines.len()
            &&& is_content(lines[f.line as int])
            &&& has_colon(lines[f.line as int])
        })
    &&& evs.len() > 0 ==> evs[0] is Some
    &&& forall|i: int| 0 < i < evs.len() && (#[trigger] evs[i]) is None ==> evs[i - 1] is Some
}

proof fn lemma_well_placed_upto(lines: Seq<Seq<char>>, k: nat)
    requires
        k <= lines.len(),
    ensures
        ({
            let st = group_upto(lines, k);
            &&& well_placed(lines, st.events)
            &&& st.started == (st.events.len() > 0)
            &&& st.in_blank ==> st.events.len() > 0 && st.events.last() is None
            &&& st.started && !st.in_blank ==> st.events.last() is Some
            &&& st.open ==> st.events.len() > 0 && st.events.last() is Some
        }),
    decreases k,
{
    if k > 0 {
        let k1 = (k - 1) as nat;
        let prev = group_upto(lines, k1);
        let l = lines[k1 as int];
        lemma_well_placed_upto(lines, k1);
        assert(group_upto(lines, k) == step(prev, k1, l));
        let next = step(prev, k1, l);
        if prev.err is Some || is_comment(l) {
        } else if is_blank(l) {
            if prev.started && !prev.in_blank {
                assert forall|i: int|
                    0 < i < next.events.len() && (#[trigger] next.events[i]) is None implies next.events[i
                    - 1] is Some by {
                    if i < prev.events.len() {
                        assert(next.events[i] == prev.events[i]);
                    }
                }
                assert forall|i: int|
                    0 <= i < next.events.len() && (#[trigger] next.events[i]) is Some implies ({
                    let f = next.events[i]->Some_0;
                    &&& f.line < lines.len()
                    &&& is_content(lines[f.line as int])
                    &&& has_colon(lines[f.line as int])
                }) by {
                    assert(next.events[i] == prev.events[i]);
                }
            }
        } else if prev.open && l[0] == ' ' {
            let n = prev.events.len() - 1;
            assert forall|i: int|
                0 <= i < next.events.len() && (#[trigger] next.events[i]) is Some implies ({
                let f = next.events[i]->Some_0;
                &&& f.line < lines.len()
                &&& is_content(lines[f.line as int])
                &&& has_colon(lines[f.line as int])
            }) by {
                if i != n {
                    assert(next.events[i] == prev.events[i]);
                } else {
                    assert(next.events[i]->Some_0.line == prev.events[n]->Some_0.line);
                }
            }
            assert forall|i: int|
                0 < i < next.events.len() && (#[trigger] next.events[i]) is None implies next.events[i
                - 1] is Some by {
                assert(next.events[i] == prev.events[i]);
                if i - 1 != n {
                    assert(next.events[i - 1] == prev.events[i - 1]);
                }
            }
        } else if has_colon(l) {
            assert forall|i: int|
                0 < i < next.events.len() && (#[trigger] next.events[i]) is None implies next.events[i
                - 1] is Some by {
                assert(next.events[i] == prev.events[i]);
            }
            assert forall|i: int|
                0 <= i < next.events.len() && (#[trigger] next.events[i]) is Some implies ({
                let f = next.events[i]->Some_0;
                &&& f.line < lines.len()
                &&& is_content(lines[f.line as int])
                &&& has_colon(lines[f.line as int])
            }) by {
                if i < prev.events.len() {
                    assert(next.events[i] == prev.events[i]);
                }
            }
        }
    }
}

/// Blank lines and comment lines never produce a field, and never a
/// stanza: no boundary comes before the first field, and a run of blank
/// lines, with or without comments among them, gives one boundary at most.
pub proof fn comments_and_blanks_produce_no_field(lines: Seq<Seq<char>>)
    ensures
        well_placed(lines, group(lines).events),
{
    lemma_well_placed_upto(lines, lines.len());
}

/// The lines without the comment lines among the first `k`.
pub open spec fn without_comments_upto(lines: Seq<Seq<char>>, k: nat) -> Seq<Seq<char>>
    decreases k,
{
    if k == 0 {
        Seq::empty()
    } else if is_comment(lines[k - 1]) {
        without_comments_upto(lines, (k - 1) as nat)
    } else {
        without_comments_upto(lines, (k - 1) as nat).push(lines[k - 1])
    }
}

pub open spec fn without_comments(lines: Seq<Seq<char>>) -> Seq<Seq<char>> {
    without_comments_upto(lines, lines.len())
}

/// A line that would continue a field: not blank, and starting with a space.
pub open spec fn continues(l: Seq<char>) -> bool {
    !is_blank(l) && l.len() > 0 && l[0] == ' '
}

/// Fields and boundaries with the line numbers left out.
pub open spec fn unnumbered(evs: Seq<Option<FieldV>>) -> Seq<Option<(Seq<char>, Seq<Seq<char>>)>> {
    evs.map_values(
        |e: Option<FieldV>|
            match e {
                Some(f) => Some((f.key, f.frags)),
                None => None,
            },
    )
}

proof fn lemma_group_prefix(a: Seq<Seq<char>>, l: Seq<char>, j: nat)
    requires
        j <= a.len(),
    ensures
        group_upto(a.push(l), j) == group_upto(a, j),
    decreases j,
{
    if j > 0 {
        lemma_group_prefix(a, l, (j - 1) as nat);
        assert(a.push(l)[j - 1] == a[j - 1]);
    }
}

/// How the grouping of a text and of the text without comments agree after
/// the first `k` lines.
pub open spec fn agree(lines: Seq<Seq<char>>, k: nat, s1: GroupState, s2: GroupState) -> bool {
    &&& unnumbered(s1.events) == unnumbered(s2.events)
    &&& s1.started == s2.started
    &&& s1.in_blank == s2.in_blank
    &&& (s1.err is Some) == (s2.err is Some)
    &&& s1.err is Some ==> !s1.open && !s2.open
    &&& s1.open ==> s2.open
    &&& s2.open && !s1.open ==> k > 0 && is_comment(lines[k - 1])
}

proof fn lemma_agree_step(
    lines: Seq<Seq<char>>,
    k1: nat,
    m: nat,
    s1: GroupState,
    s2: GroupState,
)
    requires
        k1 < lines.len(),
        agree(lines, k1, s1, s2),
        s1.open ==> s1.events.len() > 0 && s1.events.last() is Some,
        s2.open ==> s2.events.len() > 0 && s2.events.last() is Some,
        !is_comment(lines[k1 as int]),
        !(s2.open && !s1.open && continues(lines[k1 as int])),
    ensures
        agree(lines, k1 + 1, step(s1, k1, lines[k1 as int]), step(s2, m, lines[k1 as int])),
{
    let l = lines[k1 as int];
    let n1 = step(s1, k1, l);
    let n2 = step(s2, m, l);
    assert(unnumbered(s1.events).len() == s1.events.len());
    assert(unnumbered(s2.events).len() == s2.events.len());
    if s1.err is Some {
    } else if is_blank(l) {
        assert(unnumbered(n1.events) =~= unnumbered(n2.events)) by {
            assert forall|j: int| 0 <= j < n1.events.len() implies unnumbered(n1.events)[j]
                == unnumbered(n2.events)[j] by {
                if j < s1.events.len() {
                    assert(unnumbered(s1.events)[j] == unnumbered(s2.events)[j]);
                }
            }
        }
    } else if s1.open && l[0] == ' ' {
        let i = s1.events.len() - 1;
        assert(unnumbered(s1.events)[i] == unnumbered(s2.events)[i]);
        assert(unnumbered(n1.events) =~= unnumbered(n2.events)) by {
            assert forall|j: int| 0 <= j < n1.events.len() implies unnumbered(n1.events)[j]
                == unnumbered(n2.events)[j] by {
                if j != i {
                    assert(unnumbered(s1.events)[j] == unnumbered(s2.events)[j]);
                }
            }
        }
    } else {
        assert(!(s2.open && l[0] == ' '));
        assert(unnumbered(n1.events) =~= unnumbered(n2.events)) by {
            if has_colon(l) {
                assert forall|j: int| 0 <= j < n1.events.len() implies unnumbered(n1.events)[j]
                    == unnumbered(n2.events)[j] by {
                    if j < s1.events.len() {
                        assert(unnumbered(s1.events)[j] == unnumbered(s2.events)[j]);
                    }
                }
            }
        }
    }
}

proof fn lemma_agree_upto(lines: Seq<Seq<char>>, k: nat)
    requires
        k <= lines.len(),
        forall|j: int|
            0 <= j < lines.len() - 1 && is_comment(#[trigger] lines[j]) ==> !continues(lines[j + 1]),
    ensures
        agree(lines, k, group_upto(lines, k), group(without_comments_upto(lines, k))),
    decreases k,
{
    if k == 0 {
        assert(unnumbered(Seq::empty()) =~= unnumbered(group(Seq::<Seq<char>>::empty()).events));
    } else {
        let k1 = (k - 1) as nat;
        lemma_agree_upto(lines, k1);
        lemma_well_placed_upto(lines, k1);
        let w = without_comments_upto(lines, k1);
        lemma_well_placed_upto(w, w.len());
        let s1 = group_upto(lines, k1);
        let s2 = group(w);
        let l = lines[k1 as int];
        assert(group_upto(lines, k) == step(s1, k1, l));
        if is_comment(l) {
            assert(without_comments_upto(lines, k) == w);
        } else {
            let w2 = w.push(l);
            assert(without_comments_upto(lines, k) == w2);
            lemma_group_prefix(w, l, w.len());
            assert(w2[w.len() as int] == l);
            assert(group(w2) == step(s2, w.len(), l));
            if s2.open && !s1.open && continues(l) {
                assert(is_comment(lines[k1 - 1]));
                assert(lines[(k1 - 1) + 1] == l);
            }
            lemma_agree_step(lines, k1, w.len(), s1, s2);
        }
    }
}

/// Comment lines change nothing but line numbers: a text and the same text
/// without its comment lines give the same keys, fragments and boundaries in
/// the same order, and fail alike; provided no comment line stands where a
/// continuation line follows it, since a comment ends a field's continuation.
pub proof fn comments_change_only_line_numbers(lines: Seq<Seq<char>>)
    requires
        forall|j: int|
            0 <= j < lines.len() - 1 && is_comment(#[trigger] lines[j]) ==> !continues(lines[j + 1]),
    ensures
        unnumbered(group(lines).events) == unnumbered(group(without_comments(lines)).events),
        (group(lines).err is Some) == (group(without_comments(lines)).err is Some),
{
    lemma_agree_upto(lines, lines.len());
}

} // verus!
