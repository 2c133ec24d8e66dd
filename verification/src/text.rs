//! Reading numbers and space-separated words out of a line of text.

use vstd::prelude::*;

verus! {

/// The characters of `text`, one by one.
pub fn characters(text: &str) -> (chars: Vec<char>)
    ensures
        chars@ == text@,
{
    let mut chars: Vec<char> = Vec::new();
    for c in walk: text.chars()
        invariant
            walk.seq() == text@,
            chars@ == walk.seq().take(walk.index()),
    {
        chars.push(c);
        assert(walk.seq().take(walk.index() + 1) =~= walk.seq().take(walk.index()).push(c));
    }
    assert(text@.take(text@.len() as int) =~= text@);
    chars
}

/// White space, as Unicode defines it.
pub open spec fn is_white_space(c: char) -> bool {
    let code = c as u32;
    ||| 0x09 <= code <= 0x0d
    ||| code == 0x20
    ||| code == 0x85
    ||| code == 0xa0
    ||| code == 0x1680
    ||| 0x2000 <= code <= 0x200a
    ||| code == 0x2028
    ||| code == 0x2029
    ||| code == 0x202f
    ||| code == 0x205f
    ||| code == 0x3000
}

/// Whether `c` is white space.
pub fn is_space(c: char) -> (space: bool)
    ensures
        space == is_white_space(c),
{
    let code: u32 = c as u32;
    (0x09 <= code && code <= 0x0d) || code == 0x20 || code == 0x85 || code == 0xa0 || code
        == 0x1680 || (0x2000 <= code && code <= 0x200a) || code == 0x2028 || code == 0x2029 || code
        == 0x202f || code == 0x205f || code == 0x3000
}

/// `s` without the white space at its two ends.
pub open spec fn trimmed(s: Seq<char>) -> Seq<char>
    decreases s.len(),
{
    if s.len() == 0 {
        s
    } else if is_white_space(s.first()) {
        trimmed(s.drop_first())
    } else if is_white_space(s.last()) {
        trimmed(s.drop_last())
    } else {
        s
    }
}

/// Where everything before `lo` and from `hi` on is white space, and the
/// stretch between them neither begins nor ends with white space, that
/// stretch is what trimming leaves.
proof fn lemma_trimmed_is_stretch(s: Seq<char>, lo: int, hi: int)
    requires
        0 <= lo <= hi <= s.len(),
        forall|i: int| 0 <= i < lo ==> is_white_space(s[i]),
        forall|i: int| hi <= i < s.len() ==> is_white_space(s[i]),
        lo < hi ==> !is_white_space(s[lo]) && !is_white_space(s[hi - 1]),
    ensures
        trimmed(s) == s.subrange(lo, hi),
    decreases s.len(),
{
    if s.len() == 0 {
        assert(s.subrange(lo, hi) =~= s);
    } else if is_white_space(s.first()) {
        let rest = s.drop_first();
        if lo == 0 {
            assert(hi == 0);
            assert forall|i: int| 0 <= i < rest.len() implies is_white_space(rest[i]) by {
                assert(rest[i] == s[i + 1]);
            }
            lemma_trimmed_is_stretch(rest, 0, 0);
            assert(rest.subrange(0, 0) =~= s.subrange(lo, hi));
        } else {
            assert forall|i: int| 0 <= i < lo - 1 implies is_white_space(rest[i]) by {
                assert(rest[i] == s[i + 1]);
            }
            assert forall|i: int| hi - 1 <= i < rest.len() implies is_white_space(rest[i]) by {
                assert(rest[i] == s[i + 1]);
            }
            if lo < hi {
                assert(rest[lo - 1] == s[lo]);
                assert(rest[hi - 2] == s[hi - 1]);
            }
            lemma_trimmed_is_stretch(rest, lo - 1, hi - 1);
            assert(rest.subrange(lo - 1, hi - 1) =~= s.subrange(lo, hi));
        }
    } else if is_white_space(s.last()) {
        let rest = s.drop_last();
        assert(lo == 0);
        assert(hi < s.len());
        lemma_trimmed_is_stretch(rest, lo, hi);
        assert(rest.subrange(lo, hi) =~= s.subrange(lo, hi));
    } else {
        assert(lo == 0);
        assert(hi == s.len());
        assert(s.subrange(lo, hi) =~= s);
    }
}

/// The characters of `chars` without the white space at the two ends.
pub fn trim(chars: &Vec<char>) -> (inner: Vec<char>)
    ensures
        inner@ == trimmed(chars@),
{
    let mut lo: usize = 0;
    while lo < chars.len() && is_space(chars[lo])
        invariant
            lo <= chars@.len(),
            forall|i: int| 0 <= i < lo ==> is_white_space(chars@[i]),
        decreases chars@.len() - lo,
    {
        lo += 1;
    }
    let mut hi: usize = chars.len();
    while hi > lo && is_space(chars[hi - 1])
        invariant
            lo <= hi <= chars@.len(),
            forall|i: int| hi <= i < chars@.len() ==> is_white_space(chars@[i]),
        decreases hi,
    {
        hi -= 1;
    }
    let mut inner: Vec<char> = Vec::new();
    let mut k: usize = lo;
    while k < hi
        invariant
            lo <= k <= hi <= chars@.len(),
            inner@ == chars@.subrange(lo as int, k as int),
        decreases hi - k,
    {
        inner.push(chars[k]);
        assert(chars@.subrange(lo as int, k + 1) =~= chars@.subrange(lo as int, k as int).push(
            chars@[k as int],
        ));
        k += 1;
    }
    proof {
        lemma_trimmed_is_stretch(chars@, lo as int, hi as int);
    }
    inner
}

/// The words into which the separator `sep` cuts `s`: one more than there
/// are separators, each possibly empty, in their order.
pub open spec fn split_at(s: Seq<char>, sep: char) -> Seq<Seq<char>>
    decreases s.len(),
{
    if s.len() == 0 {
        seq![Seq::<char>::empty()]
    } else {
        let before = split_at(s.drop_last(), sep);
        if s.last() == sep {
            before.push(Seq::<char>::empty())
        } else {
            before.drop_last().push(before.last().push(s.last()))
        }
    }
}

/// The contents of a list of words.
pub open spec fn words_of(words: Seq<Vec<char>>) -> Seq<Seq<char>> {
    Seq::new(words.len(), |i: int| words[i]@)
}

/// The words into which single spaces cut `chars`.
pub fn split_at_spaces(chars: &Vec<char>) -> (words: Vec<Vec<char>>)
    ensures
        words_of(words@) == split_at(chars@, ' '),
{
    let mut words: Vec<Vec<char>> = Vec::new();
    let mut word: Vec<char> = Vec::new();
    let mut k: usize = 0;
    assert(words_of(words@).push(word@) =~= split_at(chars@.take(0), ' '));
    while k < chars.len()
        invariant
            k <= chars@.len(),
            words_of(words@).push(word@) == split_at(chars@.take(k as int), ' '),
        decreases chars@.len() - k,
    {
        let c: char = chars[k];
        let ghost before = split_at(chars@.take(k as int), ' ');
        let ghost done = words_of(words@);
        let ghost open_word = word@;
        proof {
            assert(chars@.take(k + 1).drop_last() =~= chars@.take(k as int));
            assert(chars@.take(k + 1).last() == c);
            assert(before.last() == open_word);
            assert(before.drop_last() =~= done);
        }
        if c == ' ' {
            words.push(word);
            word = Vec::new();
            assert(words_of(words@) =~= before);
        } else {
            word.push(c);
            assert(words_of(words@).push(word@) =~= before.drop_last().push(
                before.last().push(c),
            ));
        }
        k += 1;
    }
    proof {
        assert(chars@.take(chars@.len() as int) =~= chars@);
    }
    let ghost done = words_of(words@);
    let ghost last_word = word@;
    words.push(word);
    assert(words_of(words@) =~= done.push(last_word));
    words
}

/// A decimal digit.
pub open spec fn is_digit(c: char) -> bool {
    '0' <= c <= '9'
}

/// The number that the digit `c` stands for.
pub open spec fn digit_value(c: char) -> nat {
    (c as u32 - '0' as u32) as nat
}

/// The number that a string of decimal digits stands for.
pub open spec fn decimal_value(s: Seq<char>) -> nat
    decreases s.len(),
{
    if s.len() == 0 {
        0
    } else {
        decimal_value(s.drop_last()) * 10 + digit_value(s.last())
    }
}

/// One decimal digit or more, and nothing else.
pub open spec fn is_number(s: Seq<char>) -> bool {
    &&& s.len() > 0
    &&& forall|i: int| 0 <= i < s.len() ==> is_digit(#[trigger] s[i])
}

/// The number that `s` stands for, if it is one and fits the machine word.
pub open spec fn parsed_number(s: Seq<char>) -> Option<usize> {
    if is_number(s) && decimal_value(s) <= usize::MAX {
        Some(decimal_value(s) as usize)
    } else {
        None
    }
}

/// The digits read so far never stand for more than all of them do.
proof fn lemma_decimal_value_grows(s: Seq<char>, k: int)
    requires
        0 <= k <= s.len(),
    ensures
        decimal_value(s.take(k)) <= decimal_value(s),
    decreases s.len() - k,
{
    if k == s.len() {
        assert(s.take(k) =~= s);
    } else {
        lemma_decimal_value_grows(s, k + 1);
        assert(s.take(k + 1).drop_last() =~= s.take(k));
    }
}

/// Reads `word` as a decimal number: digits only, at least one.
pub fn parse_number(word: &Vec<char>) -> (number: Option<usize>)
    ensures
        number == parsed_number(word@),
{
    if word.len() == 0 {
        return None;
    }
    let mut value: usize = 0;
    let mut k: usize = 0;
    assert(word@.take(0) =~= Seq::<char>::empty());
    while k < word.len()
        invariant
            k <= word@.len(),
            forall|i: int| 0 <= i < k ==> is_digit(#[trigger] word@[i]),
            value == decimal_value(word@.take(k as int)),
        decreases word@.len() - k,
    {
        let c: char = word[k];
        if !(c >= '0' && c <= '9') {
            return None;
        }
        let digit: usize = (c as u32 - '0' as u32) as usize;
        proof {
            assert(word@.take(k + 1).drop_last() =~= word@.take(k as int));
            assert(word@.take(k + 1).last() == c);
            lemma_decimal_value_grows(word@, k + 1);
        }
        match value.checked_mul(10) {
            None => {
                return None;
            },
            Some(tens) => match tens.checked_add(digit) {
                None => {
                    return None;
                },
                Some(next) => {
                    value = next;
                },
            },
        }
        k += 1;
    }
    proof {
        assert(word@.take(word@.len() as int) =~= word@);
    }
    Some(value)
}

} // verus!
