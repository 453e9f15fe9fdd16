//! Characters and strings.

use vstd::prelude::*;

verus! {

/// `String::push` puts the character at the end of the string.
pub assume_specification[ String::push ](text: &mut String, c: char)
    ensures
        final(text)@ == old(text)@.push(c),
;

/// The characters of `text`, in order.
pub(crate) fn chars_of(text: &str) -> (chars: Vec<char>)
    ensures
        chars@ == text@,
{
    let mut chars: Vec<char> = Vec::new();
    for c in iter: text.chars()
        invariant
            chars@ == text@.take(iter.index()),
            iter.seq() == text@,
    {
        chars.push(c);
        assert(chars@ == text@.take(iter.index() + 1));
    }
    assert(text@.take(text@.len() as int) == text@);
    chars
}

/// The string made of `chars[from..to]`.
pub(crate) fn text_between(chars: &Vec<char>, from: usize, to: usize) -> (text: String)
    requires
        from <= to <= chars@.len(),
    ensures
        text@ == chars@.subrange(from as int, to as int),
{
    let mut text = String::new();
    let mut i: usize = from;
    while i < to
        invariant
            from <= i <= to <= chars@.len(),
            text@ == chars@.subrange(from as int, i as int),
        decreases to - i,
    {
        text.push(chars[i]);
        i += 1;
        assert(text@ == chars@.subrange(from as int, i as int));
    }
    text
}

/// Whether two texts hold the same characters.
pub(crate) fn same_text(a: &str, b: &str) -> (same: bool)
    ensures
        same == (a@ == b@),
{
    a.to_owned() == b.to_owned()
}

/// Lexicographic order of texts, by code point.
pub open spec fn text_less(a: Seq<char>, b: Seq<char>) -> bool
    decreases a.len(),
{
    if b.len() == 0 {
        false
    } else if a.len() == 0 {
        true
    } else if a[0] == b[0] {
        text_less(a.drop_first(), b.drop_first())
    } else {
        a[0] < b[0]
    }
}

/// Whether `a` comes before `b` in lexicographic order.
pub(crate) fn is_text_less(a: &str, b: &str) -> (less: bool)
    ensures
        less == text_less(a@, b@),
{
    let left = chars_of(a);
    let right = chars_of(b);
    let mut i: usize = 0;
    assert(left@.skip(0) == a@ && right@.skip(0) == b@);
    while i < left.len() && i < right.len() && left[i] == right[i]
        invariant
            i <= left@.len(),
            i <= right@.len(),
            text_less(a@, b@) == text_less(left@.skip(i as int), right@.skip(i as int)),
        decreases left@.len() - i,
    {
        assert(left@.skip(i as int).drop_first() == left@.skip(i + 1));
        assert(right@.skip(i as int).drop_first() == right@.skip(i + 1));
        i += 1;
    }
    if i >= right.len() {
        false
    } else if i >= left.len() {
        true
    } else {
        left[i] < right[i]
    }
}

/// Of two different texts exactly one comes first, and none comes before itself.
pub(crate) proof fn text_less_total(a: Seq<char>, b: Seq<char>)
    ensures
        text_less(a, b) ==> !text_less(b, a) && a != b,
        a != b ==> text_less(a, b) || text_less(b, a),
    decreases a.len(),
{
    if a.len() > 0 && b.len() > 0 {
        text_less_total(a.drop_first(), b.drop_first());
        if a[0] == b[0] && a.drop_first() == b.drop_first() {
            assert(a =~= seq![a[0]] + a.drop_first());
            assert(b =~= seq![b[0]] + b.drop_first());
        }
    } else if a.len() == 0 && b.len() == 0 {
        assert(a =~= b);
    }
}

/// The order of texts is transitive.
pub(crate) proof fn text_less_transitive(a: Seq<char>, b: Seq<char>, c: Seq<char>)
    requires
        text_less(a, b),
        text_less(b, c),
    ensures
        text_less(a, c),
    decreases a.len(),
{
    if a.len() > 0 && a[0] == b[0] && b[0] == c[0] {
        text_less_transitive(a.drop_first(), b.drop_first(), c.drop_first());
    }
}

} // verus!
