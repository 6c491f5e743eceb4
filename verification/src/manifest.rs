//! The lines of a manifest, and the fragment that a `searchIndex` line holds.
use vstd::prelude::*;

verus! {

/// Whether `c` is white space, as Unicode lists it.
pub open spec fn is_space(c: char) -> bool {
    let code = c as u32;
    ||| 0x09 <= code <= 0x0d
    ||| code == 0x20
    ||| code == 0x85
    ||| code == 0xa0
    ||| code == 0x1680
    ||| 0x2000 <= code <= 0x200a
    ||| code == 0x2028
    ||| code == 0x2029
    ||| code == 0x202f
    ||| code == 0x205f
    ||| code == 0x3000
}

/// The place of the first `c` in `text`, or the length of `text` where it
/// holds none.
pub open spec fn position(text: Seq<char>, c: char) -> int
    decreases text.len(),
{
    if text.len() == 0 || text[0] == c {
        0
    } else {
        position(text.drop_first(), c) + 1
    }
}

/// `text` without the white space at its start.
pub open spec fn trim_start(text: Seq<char>) -> Seq<char>
    decreases text.len(),
{
    if text.len() > 0 && is_space(text[0]) {
        trim_start(text.drop_first())
    } else {
        text
    }
}

/// `text` without the white space at its end.
pub open spec fn trim_end(text: Seq<char>) -> Seq<char>
    decreases text.len(),
{
    if text.len() > 0 && is_space(text.last()) {
        trim_end(text.drop_last())
    } else {
        text
    }
}

/// `text` without the semicolons at its end.
pub open spec fn without_semicolons(text: Seq<char>) -> Seq<char>
    decreases text.len(),
{
    if text.len() > 0 && text.last() == ';' {
        without_semicolons(text.drop_last())
    } else {
        text
    }
}

/// Whether a line of the manifest holds a fragment: it starts with the word
/// `searchIndex`.
pub open spec fn is_fragment_line(line: Seq<char>) -> bool {
    "searchIndex"@.is_prefix_of(line)
}

/// The fragment of a line: what follows the first `=`, without the white space
/// around it and then without the semicolons at its end. A line without `=`
/// has none.
pub open spec fn fragment(line: Seq<char>) -> Option<Seq<char>> {
    let at = position(line, '=');
    if at < line.len() {
        Some(without_semicolons(trim_end(trim_start(line.skip(at + 1)))))
    } else {
        None
    }
}

/// Whether `c` is white space.
pub fn space(c: char) -> (yes: bool)
    ensures
        yes == is_space(c),
{
    let code = c as u32;
    (0x09 <= code && code <= 0x0d) || code == 0x20 || code == 0x85 || code == 0xa0 || code
        == 0x1680 || (0x2000 <= code && code <= 0x200a) || code == 0x2028 || code == 0x2029 || code
        == 0x202f || code == 0x205f || code == 0x3000
}

/// The place of the first `c` in `chars[from..to]`, or `to` where there is
/// none.
pub fn find(chars: &Vec<char>, from: usize, to: usize, c: char) -> (at: usize)
    requires
        from <= to <= chars.len(),
    ensures
        from <= at <= to,
        at - from == position(chars@.subrange(from as int, to as int), c),
{
    let mut at: usize = from;
    while at < to && chars[at] != c
        invariant
            from <= at <= to <= chars.len(),
            position(chars@.subrange(from as int, to as int), c) == (at - from) + position(
                chars@.subrange(at as int, to as int),
                c,
            ),
        decreases to - at,
    {
        assert(chars@.subrange(at as int, to as int).drop_first() =~= chars@.subrange(
            at + 1,
            to as int,
        ));
        at += 1;
    }
    at
}

/// Whether `chars[from..to]` starts with `word`.
pub fn starts_with(chars: &Vec<char>, from: usize, to: usize, word: &Vec<char>) -> (yes: bool)
    requires
        from <= to <= chars.len(),
    ensures
        yes == word@.is_prefix_of(chars@.subrange(from as int, to as int)),
{
    let ghost line = chars@.subrange(from as int, to as int);
    if word.len() > to - from {
        return false;
    }
    let mut i: usize = 0;
    while i < word.len()
        invariant
            i <= word.len() <= to - from,
            from <= to <= chars.len(),
            line == chars@.subrange(from as int, to as int),
            forall|k: int| 0 <= k < i ==> word@[k] == line[k],
        decreases word.len() - i,
    {
        if word[i] != chars[from + i] {
            assert(line.subrange(0, word@.len() as int)[i as int] != word@[i as int]);
            return false;
        }
        i += 1;
    }
    assert(line.subrange(0, word@.len() as int) =~= word@);
    true
}

/// The bounds within `chars` of the fragment of the line `chars[from..to]`.
pub fn fragment_bounds(chars: &Vec<char>, from: usize, to: usize) -> (bounds: Option<
    (usize, usize),
>)
    requires
        from <= to <= chars.len(),
    ensures
        match bounds {
            Some((start, end)) => from <= start <= end <= to && fragment(
                chars@.subrange(from as int, to as int),
            ) == Some(chars@.subrange(start as int, end as int)),
            None => fragment(chars@.subrange(from as int, to as int)) is None,
        },
{
    let ghost line = chars@.subrange(from as int, to as int);
    let at = find(chars, from, to, '=');
    if at >= to {
        return None;
    }
    let mut start: usize = at + 1;
    assert(line.skip(at - from + 1) =~= chars@.subrange(start as int, to as int));
    while start < to && space(chars[start])
        invariant
            at < start <= to <= chars.len(),
            trim_start(chars@.subrange(at + 1, to as int)) == trim_start(
                chars@.subrange(start as int, to as int),
            ),
        decreases to - start,
    {
        assert(chars@.subrange(start as int, to as int).drop_first() =~= chars@.subrange(
            start + 1,
            to as int,
        ));
        start += 1;
    }
    let mut end: usize = to;
    while start < end && space(chars[end - 1])
        invariant
            start <= end <= to <= chars.len(),
            trim_end(chars@.subrange(start as int, to as int)) == trim_end(
                chars@.subrange(start as int, end as int),
            ),
        decreases end - start,
    {
        assert(chars@.subrange(start as int, end as int).drop_last() =~= chars@.subrange(
            start as int,
            end - 1,
        ));
        end -= 1;
    }
    let ghost trimmed = chars@.subrange(start as int, end as int);
    while start < end && chars[end - 1] == ';'
        invariant
            start <= end <= to <= chars.len(),
            without_semicolons(trimmed) == without_semicolons(
                chars@.subrange(start as int, end as int),
            ),
        decreases end - start,
    {
        assert(chars@.subrange(start as int, end as int).drop_last() =~= chars@.subrange(
            start as int,
            end - 1,
        ));
        end -= 1;
    }
    Some((start, end))
}

} // verus!
