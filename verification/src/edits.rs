//! Replacing byte ranges of a text.

use std::ops::Range;

use vstd::prelude::*;

use crate::error::{outcome, Error};
use crate::text::{chars_of, text_between};

verus! {

/// A range of bytes and the text to put in its place, over the type of that text.
#[derive(Debug, PartialEq, Eq)]
pub struct Edit<S> {
    pub range: Range<usize>,
    pub replacement: S,
}

impl DeepView for Edit<String> {
    type V = Edit<Seq<char>>;

    open spec fn deep_view(&self) -> Edit<Seq<char>> {
        Edit { range: self.range, replacement: self.replacement@ }
    }
}

/// How many bytes UTF-8 takes for a character.
pub open spec fn width(c: char) -> nat {
    if c as u32 <= 0x7f {
        1
    } else if c as u32 <= 0x7ff {
        2
    } else if c as u32 <= 0xffff {
        3
    } else {
        4
    }
}

/// How many characters stand before a byte, where the byte is the first of a character
/// or the end of the text.
pub open spec fn chars_before(text: Seq<char>, byte: nat) -> Option<nat>
    decreases text.len(),
{
    if byte == 0 {
        Some(0)
    } else if text.len() == 0 || byte < width(text[0]) {
        None
    } else {
        match chars_before(text.drop_first(), (byte - width(text[0])) as nat) {
            Some(count) => Some(count + 1),
            None => None,
        }
    }
}

/// `text` with one range replaced, where the range starts and ends between characters.
pub open spec fn replaced(text: Seq<char>, edit: Edit<Seq<char>>) -> Option<Seq<char>> {
    match (
        chars_before(text, edit.range.start as nat),
        chars_before(text, edit.range.end as nat),
    ) {
        (Some(from), Some(to)) => if from <= to {
            Some(text.take(from as int) + edit.replacement + text.skip(to as int))
        } else {
            None
        },
        _ => None,
    }
}

/// A row of edits, the last range first, with one more edit: after those that start at
/// the same byte.
pub open spec fn with_edit(
    sorted: Seq<Edit<Seq<char>>>,
    edit: Edit<Seq<char>>,
) -> Seq<Edit<Seq<char>>>
    decreases sorted.len(),
{
    if sorted.len() == 0 {
        seq![edit]
    } else if sorted[0].range.start < edit.range.start {
        seq![edit] + sorted
    } else {
        seq![sorted[0]] + with_edit(sorted.drop_first(), edit)
    }
}

/// A row of edits, the last range first. Those that start at the same byte keep their
/// order.
pub open spec fn last_first(edits: Seq<Edit<Seq<char>>>) -> Seq<Edit<Seq<char>>>
    decreases edits.len(),
{
    if edits.len() == 0 {
        seq![]
    } else {
        with_edit(last_first(edits.drop_last()), edits.last())
    }
}

/// `text` after a row of edits, one after the other.
pub open spec fn replaced_each(text: Seq<char>, edits: Seq<Edit<Seq<char>>>) -> Result<
    Seq<char>,
    Error<Seq<char>>,
>
    decreases edits.len(),
{
    if edits.len() == 0 {
        Ok(text)
    } else {
        match replaced(text, edits[0]) {
            None => Err(Error::Range { start: edits[0].range.start, end: edits[0].range.end }),
            Some(next) => replaced_each(next, edits.drop_first()),
        }
    }
}

/// `text` after all edits, the last range first, so that no edit moves the ranges that
/// are still to come.
pub open spec fn edited(text: Seq<char>, edits: Seq<Edit<Seq<char>>>) -> Result<
    Seq<char>,
    Error<Seq<char>>,
> {
    replaced_each(text, last_first(edits))
}

fn char_width(c: char) -> (bytes: usize)
    ensures
        bytes == width(c),
        1 <= bytes <= 4,
{
    let code: u32 = c as u32;
    if code <= 0x7f {
        1
    } else if code <= 0x7ff {
        2
    } else if code <= 0xffff {
        3
    } else {
        4
    }
}

fn count_chars_before(chars: &Vec<char>, byte: usize) -> (count: Option<usize>)
    ensures
        match count {
            Some(count) => chars_before(chars@, byte as nat) == Some(count as nat) && count
                <= chars@.len(),
            None => chars_before(chars@, byte as nat) is None,
        },
{
    let mut rest: usize = byte;
    let mut i: usize = 0;
    assert(chars@.skip(0) == chars@);
    while rest > 0
        invariant
            i <= chars@.len(),
            match chars_before(chars@.skip(i as int), rest as nat) {
                Some(count) => chars_before(chars@, byte as nat) == Some((i + count) as nat),
                None => chars_before(chars@, byte as nat) is None,
            },
        decreases chars@.len() - i,
    {
        if i >= chars.len() {
            return None;
        }
        let bytes: usize = char_width(chars[i]);
        assert(chars@.skip(i as int).drop_first() == chars@.skip(i + 1));
        if rest < bytes {
            return None;
        }
        rest -= bytes;
        i += 1;
    }
    Some(i)
}

fn replace_range(text: &str, edit: &Edit<String>) -> (next: Option<String>)
    ensures
        next.deep_view() == replaced(text@, edit.deep_view()),
{
    let chars = chars_of(text);
    match (
        count_chars_before(&chars, edit.range.start),
        count_chars_before(&chars, edit.range.end),
    ) {
        (Some(from), Some(to)) => {
            if from > to {
                return None;
            }
            let mut next = text_between(&chars, 0, from);
            next.append(edit.replacement.as_str());
            next.append(text_between(&chars, to, chars.len()).as_str());
            assert(next@ == text@.take(from as int) + edit.replacement@ + text@.skip(to as int));
            Some(next)
        },
        _ => None,
    }
}

fn insert_edit(sorted: &mut Vec<Edit<String>>, edit: Edit<String>)
    ensures
        final(sorted).deep_view() == with_edit(old(sorted).deep_view(), edit.deep_view()),
{
    let ghost row = sorted.deep_view();
    let ghost new = edit.deep_view();
    let mut i: usize = 0;
    assert(row.skip(0) == row);
    assert(row.take(0) + with_edit(row.skip(0), new) == with_edit(row, new));
    while i < sorted.len() && sorted[i].range.start >= edit.range.start
        invariant
            i <= sorted@.len(),
            new == edit.deep_view(),
            row == sorted.deep_view(),
            sorted@ == old(sorted)@,
            row.take(i as int) + with_edit(row.skip(i as int), new) == with_edit(row, new),
        decreases sorted@.len() - i,
    {
        assert(row.skip(i as int)[0] == sorted@[i as int].deep_view());
        assert(row.skip(i as int).drop_first() == row.skip(i + 1));
        assert(row.take(i as int) + (seq![row[i as int]] + with_edit(row.skip(i + 1), new))
            == row.take(i + 1) + with_edit(row.skip(i + 1), new));
        i += 1;
    }
    assert(i < row.len() ==> row.skip(i as int)[0] == sorted@[i as int].deep_view());
    assert(i == row.len() ==> seq![new] + row.skip(i as int) == seq![new]);
    sorted.insert(i, edit);
    assert(sorted.deep_view() == row.take(i as int) + (seq![new] + row.skip(i as int)));
}

/// Replaces every range of `edits` in `source`.
pub fn apply_edits(source: &str, edits: Vec<Edit<String>>) -> (text: Result<String, Error<String>>)
    ensures
        outcome(text) == edited(source@, edits.deep_view()),
{
    let mut sorted: Vec<Edit<String>> = Vec::new();
    let ghost all = edits.deep_view();
    let ghost mut done: Seq<Edit<Seq<char>>> = seq![];
    for edit in iter: edits
        invariant
            all == edits.deep_view(),
            iter.seq() == edits@,
            done == all.take(iter.index()),
            sorted.deep_view() == last_first(done),
    {
        proof {
            let next = all.take(iter.index() + 1);
            assert(next.drop_last() == done);
            assert(next.last() == edit.deep_view());
            done = next;
        }
        insert_edit(&mut sorted, edit);
    }
    assert(done == all);
    let ghost row = sorted.deep_view();
    let mut text = source.to_owned();
    let mut i: usize = 0;
    assert(row.skip(0) == row);
    while i < sorted.len()
        invariant
            i <= sorted@.len(),
            row == sorted.deep_view(),
            all == edits.deep_view(),
            replaced_each(text@, row.skip(i as int)) == edited(source@, all),
        decreases sorted@.len() - i,
    {
        assert(row.skip(i as int)[0] == sorted@[i as int].deep_view());
        assert(row.skip(i as int).drop_first() == row.skip(i + 1));
        match replace_range(text.as_str(), &sorted[i]) {
            None => {
                return Err(
                    Error::Range { start: sorted[i].range.start, end: sorted[i].range.end },
                );
            },
            Some(next) => {
                text = next;
            },
        }
        i += 1;
    }
    Ok(text)
}

/// A byte is the first after `count` characters exactly where UTF-8 takes that many
/// bytes for them.
pub proof fn bytes_are_those_of_utf8(text: Seq<char>, byte: nat, count: nat)
    ensures
        chars_before(text, byte) == Some(count) <==> count <= text.len() && vstd::utf8::encode_utf8(
            text.take(count as int),
        ).len() == byte,
    decreases text.len(),
{
    if count == 0 {
        assert(text.take(0) == Seq::<char>::empty());
    } else if text.len() > 0 {
        lemma_width(text[0]);
        let rest = text.drop_first();
        if count <= text.len() {
            assert(text.take(count as int).drop_first() == rest.take(count - 1));
            assert(text.take(count as int)[0] == text[0]);
        }
        if byte >= width(text[0]) {
            bytes_are_those_of_utf8(
                rest,
                (byte - width(text[0])) as nat,
                (count - 1) as nat,
            );
        }
    }
}

proof fn lemma_width(c: char)
    ensures
        vstd::utf8::encode_scalar(c as u32).len() == width(c),
{
    vstd::utf8::char_is_scalar(c);
}

/// Whether the ranges of a row of edits lie between characters of `text`, are not
/// empty and come one after the other.
pub open spec fn in_order(text: Seq<char>, edits: Seq<Edit<Seq<char>>>) -> bool {
    &&& forall|i: int|
        0 <= i < edits.len() ==> {
            let range = #[trigger] edits[i].range;
            &&& range.start < range.end
            &&& chars_before(text, range.start as nat) is Some
            &&& chars_before(text, range.end as nat) is Some
        }
    &&& forall|i: int, j: int|
        0 <= i < j < edits.len() ==> (#[trigger] edits[i].range).end <= (
        #[trigger] edits[j].range).start
}

/// `text` with the ranges of all edits replaced at once: what stands outside of the
/// ranges stays, in its order.
pub open spec fn spliced(text: Seq<char>, edits: Seq<Edit<Seq<char>>>) -> Seq<char>
    decreases edits.len(),
{
    if edits.len() == 0 {
        text
    } else {
        let last = edits.last();
        let from = chars_before(text, last.range.start as nat)->0;
        let to = chars_before(text, last.range.end as nat)->0;
        spliced(text.take(from as int), edits.drop_last()) + last.replacement + text.skip(
            to as int,
        )
    }
}

/// Whether the ranges of a row of edits lie between characters of `text`, are not
/// empty and do not overlap.
pub open spec fn apart(text: Seq<char>, edits: Seq<Edit<Seq<char>>>) -> bool {
    &&& forall|i: int|
        0 <= i < edits.len() ==> {
            let range = (#[trigger] edits[i]).range;
            &&& range.start < range.end
            &&& chars_before(text, range.start as nat) is Some
            &&& chars_before(text, range.end as nat) is Some
        }
    &&& forall|i: int, j: int|
        0 <= i < j < edits.len() ==> {
            ||| (#[trigger] edits[i]).range.end <= (#[trigger] edits[j]).range.start
            ||| edits[j].range.end <= edits[i].range.start
        }
}

/// A row of edits, the first range first.
pub open spec fn by_place(edits: Seq<Edit<Seq<char>>>) -> Seq<Edit<Seq<char>>> {
    last_first(edits).reverse()
}

/// Edits whose ranges do not overlap, in whatever order they come, replace their ranges
/// and nothing else.
pub proof fn edits_leave_the_rest_alone(text: Seq<char>, edits: Seq<Edit<Seq<char>>>)
    requires
        apart(text, edits),
    ensures
        in_order(text, by_place(edits)),
        by_place(edits).to_multiset() == edits.to_multiset(),
        edited(text, edits) == Ok::<Seq<char>, Error<Seq<char>>>(spliced(text, by_place(edits))),
{
    lemma_by_place(text, edits);
    lemma_spliced(text, by_place(edits));
    assert(by_place(edits).reverse() == last_first(edits));
}

/// Edits that come one after the other, applied from the last to the first.
proof fn lemma_spliced(text: Seq<char>, edits: Seq<Edit<Seq<char>>>)
    requires
        in_order(text, edits),
    ensures
        replaced_each(text, edits.reverse()) == Ok::<Seq<char>, Error<Seq<char>>>(
            spliced(text, edits),
        ),
    decreases edits.len(),
{
    if edits.len() > 0 {
        let last = edits.last();
        let before = edits.drop_last();
        let from = chars_before(text, last.range.start as nat)->0;
        let to = chars_before(text, last.range.end as nat)->0;
        let head = text.take(from as int);
        assert(last == edits[edits.len() - 1]);
        lemma_chars_before_bound(text, last.range.start as nat);
        lemma_chars_before_bound(text, last.range.end as nat);
        lemma_chars_before_order(text, last.range.start as nat, last.range.end as nat);
        lemma_in_order_before(text, edits);
        lemma_spliced(head, before);
        let next = head + last.replacement + text.skip(to as int);
        assert(edits.reverse()[0] == last);
        assert(edits.reverse().drop_first() == before.reverse());
        assert(replaced(text, last) == Some(next));
        lemma_replaced_each_before(
            head,
            last.replacement + text.skip(to as int),
            before.reverse(),
        );
        assert(head + (last.replacement + text.skip(to as int)) == next);
        assert(spliced(head, before) + (last.replacement + text.skip(to as int)) == spliced(
            text,
            edits,
        ));
    }
}

/// Whether each edit of a row starts where those after it have ended.
spec fn falls(row: Seq<Edit<Seq<char>>>) -> bool {
    forall|i: int, j: int|
        0 <= i < j < row.len() ==> (#[trigger] row[j]).range.end <= (#[trigger] row[i]).range.start
}

proof fn lemma_with_edit(sorted: Seq<Edit<Seq<char>>>, edit: Edit<Seq<char>>)
    requires
        falls(sorted),
        edit.range.start < edit.range.end,
        forall|i: int|
            0 <= i < sorted.len() ==> {
                let range = (#[trigger] sorted[i]).range;
                &&& range.start < range.end
                &&& range.end <= edit.range.start || edit.range.end <= range.start
            },
    ensures
        falls(with_edit(sorted, edit)),
        with_edit(sorted, edit).to_multiset() == sorted.to_multiset().insert(edit),
        forall|e: Edit<Seq<char>>| #[trigger]
            with_edit(sorted, edit).contains(e) ==> e == edit || sorted.contains(e),
    decreases sorted.len(),
{
    broadcast use vstd::seq_lib::group_to_multiset_ensures;

    let longer = with_edit(sorted, edit);
    if sorted.len() == 0 {
        assert(longer == sorted.push(edit));
    } else if sorted[0].range.start < edit.range.start {
        assert(longer == sorted.insert(0, edit));
        assert forall|i: int, j: int| 0 <= i < j < longer.len() implies (
        #[trigger] longer[j]).range.end <= (#[trigger] longer[i]).range.start by {
            assert(longer[j] == sorted[j - 1]);
            if i > 0 {
                assert(longer[i] == sorted[i - 1]);
            } else if j > 1 {
                assert(sorted[j - 1].range.end <= sorted[0].range.start);
            }
        }
        assert forall|e: Edit<Seq<char>>| #[trigger] longer.contains(e) implies e == edit
            || sorted.contains(e) by {
            let i = choose|i: int| 0 <= i < longer.len() && longer[i] == e;
            if i > 0 {
                assert(sorted[i - 1] == e);
            }
        }
    } else {
        let rest = sorted.drop_first();
        assert forall|i: int, j: int| 0 <= i < j < rest.len() implies (
        #[trigger] rest[j]).range.end <= (#[trigger] rest[i]).range.start by {
            assert(rest[i] == sorted[i + 1] && rest[j] == sorted[j + 1]);
        }
        assert forall|i: int| 0 <= i < rest.len() implies {
            let range = (#[trigger] rest[i]).range;
            &&& range.start < range.end
            &&& range.end <= edit.range.start || edit.range.end <= range.start
        } by {
            assert(rest[i] == sorted[i + 1]);
        }
        lemma_with_edit(rest, edit);
        let tail = with_edit(rest, edit);
        assert(longer == tail.insert(0, sorted[0]));
        assert(sorted == rest.insert(0, sorted[0]));
        assert(longer.to_multiset() =~= sorted.to_multiset().insert(edit));
        assert forall|i: int, j: int| 0 <= i < j < longer.len() implies (
        #[trigger] longer[j]).range.end <= (#[trigger] longer[i]).range.start by {
            assert(longer[j] == tail[j - 1]);
            assert(tail.contains(tail[j - 1]));
            if i > 0 {
                assert(longer[i] == tail[i - 1]);
            } else if tail[j - 1] != edit {
                let k = choose|k: int| 0 <= k < rest.len() && rest[k] == tail[j - 1];
                assert(rest[k] == sorted[k + 1]);
            }
        }
        assert forall|e: Edit<Seq<char>>| #[trigger] longer.contains(e) implies e == edit
            || sorted.contains(e) by {
            let i = choose|i: int| 0 <= i < longer.len() && longer[i] == e;
            if i > 0 {
                assert(tail[i - 1] == e);
                assert(tail.contains(e));
                if e != edit {
                    let k = choose|k: int| 0 <= k < rest.len() && rest[k] == e;
                    assert(sorted[k + 1] == e);
                }
            } else {
                assert(sorted[0] == e);
            }
        }
    }
}

proof fn lemma_last_first(text: Seq<char>, edits: Seq<Edit<Seq<char>>>)
    requires
        apart(text, edits),
    ensures
        falls(last_first(edits)),
        last_first(edits).to_multiset() == edits.to_multiset(),
        forall|e: Edit<Seq<char>>| #[trigger] last_first(edits).contains(e) ==> edits.contains(e),
    decreases edits.len(),
{
    broadcast use vstd::seq_lib::group_to_multiset_ensures;

    if edits.len() == 0 {
        assert(last_first(edits) == edits);
    } else {
        let before = edits.drop_last();
        let last = edits.last();
        assert(forall|i: int| 0 <= i < before.len() ==> before[i] == edits[i]);
        assert forall|i: int, j: int| 0 <= i < j < before.len() implies {
            ||| (#[trigger] before[i]).range.end <= (#[trigger] before[j]).range.start
            ||| before[j].range.end <= before[i].range.start
        } by {
            assert(before[i] == edits[i] && before[j] == edits[j]);
        }
        lemma_last_first(text, before);
        let sorted = last_first(before);
        assert(last == edits[edits.len() - 1]);
        assert forall|i: int| 0 <= i < sorted.len() implies {
            let range = (#[trigger] sorted[i]).range;
            &&& range.start < range.end
            &&& range.end <= last.range.start || last.range.end <= range.start
        } by {
            assert(sorted.contains(sorted[i]));
            let k = choose|k: int| 0 <= k < before.len() && before[k] == sorted[i];
            assert(edits[k] == sorted[i]);
        }
        lemma_with_edit(sorted, last);
        assert(edits == before.push(last));
        assert forall|e: Edit<Seq<char>>| #[trigger]
            last_first(edits).contains(e) implies edits.contains(e) by {
            if e != last {
                let k = choose|k: int| 0 <= k < before.len() && before[k] == e;
                assert(edits[k] == e);
            }
        }
    }
}

proof fn lemma_by_place(text: Seq<char>, edits: Seq<Edit<Seq<char>>>)
    requires
        apart(text, edits),
    ensures
        in_order(text, by_place(edits)),
        by_place(edits).to_multiset() == edits.to_multiset(),
        forall|e: Edit<Seq<char>>| #[trigger] by_place(edits).contains(e) ==> edits.contains(e),
{
    lemma_last_first(text, edits);
    let falling = last_first(edits);
    let row = by_place(edits);
    lemma_reverse_multiset(falling);
    assert forall|e: Edit<Seq<char>>| #[trigger] row.contains(e) implies edits.contains(e) by {
        let i = choose|i: int| 0 <= i < row.len() && row[i] == e;
        assert(falling[falling.len() - 1 - i] == e);
        assert(falling.contains(e));
    }
    assert forall|i: int| 0 <= i < row.len() implies {
        let range = #[trigger] row[i].range;
        &&& range.start < range.end
        &&& chars_before(text, range.start as nat) is Some
        &&& chars_before(text, range.end as nat) is Some
    } by {
        assert(row.contains(row[i]));
        let k = choose|k: int| 0 <= k < edits.len() && edits[k] == row[i];
    }
    assert forall|i: int, j: int| 0 <= i < j < row.len() implies (#[trigger] row[i].range).end
        <= (#[trigger] row[j].range).start by {
        assert(row[i] == falling[falling.len() - 1 - i]);
        assert(row[j] == falling[falling.len() - 1 - j]);
    }
}

proof fn lemma_reverse_multiset(row: Seq<Edit<Seq<char>>>)
    ensures
        row.reverse().to_multiset() == row.to_multiset(),
    decreases row.len(),
{
    broadcast use vstd::seq_lib::group_to_multiset_ensures;

    if row.len() == 0 {
        assert(row.reverse() == row);
    } else {
        lemma_reverse_multiset(row.drop_last());
        assert(row.reverse() == row.drop_last().reverse().insert(0, row.last()));
        assert(row == row.drop_last().push(row.last()));
    }
}

proof fn lemma_chars_before_bound(text: Seq<char>, byte: nat)
    ensures
        chars_before(text, byte) matches Some(count) ==> count <= text.len(),
    decreases text.len(),
{
    if byte > 0 && text.len() > 0 && byte >= width(text[0]) {
        lemma_chars_before_bound(text.drop_first(), (byte - width(text[0])) as nat);
    }
}

/// A later byte has at least as many characters before it.
proof fn lemma_chars_before_order(text: Seq<char>, first: nat, second: nat)
    requires
        first <= second,
        chars_before(text, first) is Some,
        chars_before(text, second) is Some,
    ensures
        chars_before(text, first)->0 <= chars_before(text, second)->0,
    decreases text.len(),
{
    if first > 0 {
        lemma_chars_before_order(
            text.drop_first(),
            (first - width(text[0])) as nat,
            (second - width(text[0])) as nat,
        );
    }
}

/// What stands after a byte does not matter to the characters before it.
proof fn lemma_chars_before_prefix(text: Seq<char>, length: nat, byte: nat)
    requires
        length <= text.len(),
        chars_before(text, byte) matches Some(count) && count <= length,
    ensures
        chars_before(text.take(length as int), byte) == chars_before(text, byte),
    decreases text.len(),
{
    if byte > 0 {
        lemma_chars_before_prefix(
            text.drop_first(),
            (length - 1) as nat,
            (byte - width(text[0])) as nat,
        );
        assert(text.take(length as int).drop_first() == text.drop_first().take(length - 1));
    }
}

proof fn lemma_chars_before_longer(text: Seq<char>, tail: Seq<char>, byte: nat)
    requires
        chars_before(text, byte) is Some,
    ensures
        chars_before(text + tail, byte) == chars_before(text, byte),
    decreases text.len(),
{
    if byte > 0 {
        lemma_chars_before_longer(text.drop_first(), tail, (byte - width(text[0])) as nat);
        assert((text + tail).drop_first() == text.drop_first() + tail);
    }
}

proof fn lemma_in_order_before(text: Seq<char>, edits: Seq<Edit<Seq<char>>>)
    requires
        edits.len() > 0,
        in_order(text, edits),
    ensures
        in_order(
            text.take(chars_before(text, edits.last().range.start as nat)->0 as int),
            edits.drop_last(),
        ),
{
    let last = edits.last();
    let before = edits.drop_last();
    let from = chars_before(text, last.range.start as nat)->0;
    assert(last == edits[edits.len() - 1]);
    lemma_chars_before_bound(text, last.range.start as nat);
    assert forall|i: int| 0 <= i < before.len() implies {
        let range = #[trigger] before[i].range;
        &&& range.start < range.end
        &&& chars_before(text.take(from as int), range.start as nat) is Some
        &&& chars_before(text.take(from as int), range.end as nat) is Some
    } by {
        let range = edits[i].range;
        assert(before[i] == edits[i]);
        lemma_chars_before_order(text, range.start as nat, last.range.start as nat);
        lemma_chars_before_order(text, range.end as nat, last.range.start as nat);
        lemma_chars_before_prefix(text, from, range.start as nat);
        lemma_chars_before_prefix(text, from, range.end as nat);
    }
    assert forall|i: int, j: int| 0 <= i < j < before.len() implies (
    #[trigger] before[i].range).end <= (#[trigger] before[j].range).start by {
        assert(before[i] == edits[i] && before[j] == edits[j]);
    }
}

/// Edits of a text leave alone what follows the text.
proof fn lemma_replaced_each_before(
    text: Seq<char>,
    tail: Seq<char>,
    edits: Seq<Edit<Seq<char>>>,
)
    requires
        replaced_each(text, edits) is Ok,
    ensures
        replaced_each(text + tail, edits) == Ok::<Seq<char>, Error<Seq<char>>>(
            replaced_each(text, edits)->Ok_0 + tail,
        ),
    decreases edits.len(),
{
    if edits.len() > 0 {
        let edit = edits[0];
        let from = chars_before(text, edit.range.start as nat)->0;
        let to = chars_before(text, edit.range.end as nat)->0;
        let next = replaced(text, edit)->0;
        lemma_chars_before_longer(text, tail, edit.range.start as nat);
        lemma_chars_before_longer(text, tail, edit.range.end as nat);
        lemma_chars_before_bound(text, edit.range.start as nat);
        lemma_chars_before_bound(text, edit.range.end as nat);
        assert((text + tail).take(from as int) + edit.replacement + (text + tail).skip(to as int)
            == next + tail);
        lemma_replaced_each_before(next, tail, edits.drop_first());
    }
}

/// How many line breaks a text holds.
pub open spec fn line_breaks(text: Seq<char>) -> nat
    decreases text.len(),
{
    if text.len() == 0 {
        0
    } else {
        line_breaks(text.drop_last()) + if text.last() == '\n' {
            1nat
        } else {
            0nat
        }
    }
}

/// What stands between two bytes of a text.
pub open spec fn text_at(text: Seq<char>, start: usize, end: usize) -> Seq<char> {
    text.subrange(
        chars_before(text, start as nat)->0 as int,
        chars_before(text, end as nat)->0 as int,
    )
}

/// What an edit takes out of a text.
pub open spec fn edited_text(text: Seq<char>, edit: Edit<Seq<char>>) -> Seq<char> {
    text_at(text, edit.range.start, edit.range.end)
}

/// Edits whose ranges do not overlap, and that take no line break out and put none in,
/// keep the number of lines.
pub proof fn edits_keep_lines(text: Seq<char>, edits: Seq<Edit<Seq<char>>>)
    requires
        apart(text, edits),
        forall|i: int|
            0 <= i < edits.len() ==> line_breaks((#[trigger] edits[i]).replacement) == 0,
        forall|i: int|
            0 <= i < edits.len() ==> line_breaks(edited_text(text, #[trigger] edits[i])) == 0,
    ensures
        edited(text, edits) matches Ok(next) && line_breaks(next) == line_breaks(text),
{
    edits_leave_the_rest_alone(text, edits);
    lemma_by_place(text, edits);
    let row = by_place(edits);
    assert forall|i: int| 0 <= i < row.len() implies line_breaks((#[trigger] row[i]).replacement)
        == 0 && line_breaks(edited_text(text, row[i])) == 0 by {
        assert(row.contains(row[i]));
        let k = choose|k: int| 0 <= k < edits.len() && edits[k] == row[i];
    }
    lemma_lines_in_order(text, row);
}

proof fn lemma_lines_in_order(text: Seq<char>, edits: Seq<Edit<Seq<char>>>)
    requires
        in_order(text, edits),
        forall|i: int|
            0 <= i < edits.len() ==> line_breaks((#[trigger] edits[i]).replacement) == 0
                && line_breaks(edited_text(text, edits[i])) == 0,
    ensures
        line_breaks(spliced(text, edits)) == line_breaks(text),
    decreases edits.len(),
{
    if edits.len() > 0 {
        let last = edits.last();
        let before = edits.drop_last();
        let from = chars_before(text, last.range.start as nat)->0;
        let to = chars_before(text, last.range.end as nat)->0;
        let head = text.take(from as int);
        let tail = text.skip(to as int);
        assert(last == edits[edits.len() - 1]);
        lemma_chars_before_bound(text, last.range.start as nat);
        lemma_chars_before_bound(text, last.range.end as nat);
        lemma_chars_before_order(text, last.range.start as nat, last.range.end as nat);
        lemma_in_order_before(text, edits);
        assert forall|i: int| 0 <= i < before.len() implies line_breaks(
            (#[trigger] before[i]).replacement,
        ) == 0 && line_breaks(edited_text(head, before[i])) == 0 by {
            let edit = edits[i];
            assert(before[i] == edit);
            lemma_chars_before_order(text, edit.range.start as nat, edit.range.end as nat);
            lemma_chars_before_order(text, edit.range.end as nat, last.range.start as nat);
            lemma_chars_before_prefix(text, from, edit.range.start as nat);
            lemma_chars_before_prefix(text, from, edit.range.end as nat);
            let start = chars_before(text, edit.range.start as nat)->0 as int;
            let end = chars_before(text, edit.range.end as nat)->0 as int;
            assert(head.subrange(start, end) == text.subrange(start, end));
        }
        lemma_lines_in_order(head, before);
        lemma_line_breaks(spliced(head, before) + last.replacement, tail);
        lemma_line_breaks(spliced(head, before), last.replacement);
        lemma_line_breaks(head + text.subrange(from as int, to as int), tail);
        lemma_line_breaks(head, text.subrange(from as int, to as int));
        assert(head + text.subrange(from as int, to as int) + tail == text);
    }
}

/// Line breaks add up.
pub(crate) proof fn lemma_line_breaks(a: Seq<char>, b: Seq<char>)
    ensures
        line_breaks(a + b) == line_breaks(a) + line_breaks(b),
    decreases b.len(),
{
    if b.len() == 0 {
        assert(a + b == a);
    } else {
        lemma_line_breaks(a, b.drop_last());
        assert((a + b).drop_last() == a + b.drop_last());
    }
}

} // verus!
