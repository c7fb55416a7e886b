//! Text as a sequence of characters: the model that the parsers are stated
//! over, and the scanning primitives they share.

use vstd::prelude::*;

verus! {

/// The characters of `s`, in order, as a vector that can be indexed in
/// constant time.
pub fn chars_of(s: &str) -> (v: Vec<char>)
    ensures
        v@ == s@,
{
    let mut v: Vec<char> = Vec::new();
    for c in it: s.chars()
        invariant
            v@ == it.seq().take(it.index() as int),
            it.seq() == s@,
    {
        v.push(c);
    }
    v
}

/// Whether `c` has the Unicode property `White_Space`.
pub open spec fn is_whitespace(c: char) -> bool {
    let u = c as u32;
    ||| 0x09 <= u <= 0x0D
    ||| u == 0x20
    ||| u == 0x85
    ||| u == 0xA0
    ||| u == 0x1680
    ||| 0x2000 <= u <= 0x200A
    ||| u == 0x2028
    ||| u == 0x2029
    ||| u == 0x202F
    ||| u == 0x205F
    ||| u == 0x3000
}

/// Whether `c` is one of the ten ASCII digits.
pub open spec fn is_digit(c: char) -> bool {
    '0' <= c <= '9'
}

/// The number that the ASCII digit `c` stands for.
pub open spec fn digit_value(c: char) -> int {
    c as u32 - 48
}

/// Whether `c` has the Unicode property `White_Space`.
pub fn char_is_whitespace(c: char) -> (b: bool)
    ensures
        b == is_whitespace(c),
{
    let u: u32 = c as u32;
    (0x09 <= u && u <= 0x0D) || u == 0x20 || u == 0x85 || u == 0xA0 || u == 0x1680 || (0x2000 <= u
        && u <= 0x200A) || u == 0x2028 || u == 0x2029 || u == 0x202F || u == 0x205F || u == 0x3000
}

/// Whether `c` is one of the ten ASCII digits.
pub fn char_is_digit(c: char) -> (b: bool)
    ensures
        b == is_digit(c),
{
    '0' <= c && c <= '9'
}

/// The value of the ASCII digit `c`.
pub fn char_digit_value(c: char) -> (d: u8)
    requires
        is_digit(c),
    ensures
        d == digit_value(c),
        d <= 9,
{
    let u: u32 = c as u32;
    (u - 48) as u8
}

/// `pat` stands in `s` at index `i`.
pub open spec fn occurs_at(s: Seq<char>, pat: Seq<char>, i: int) -> bool {
    0 <= i && i + pat.len() <= s.len() && s.subrange(i, i + pat.len()) == pat
}

/// `i` is the place of the leftmost occurrence of `pat` in `s`.
pub open spec fn is_first_occurrence(s: Seq<char>, pat: Seq<char>, i: int) -> bool {
    occurs_at(s, pat, i) && forall|j: int| 0 <= j < i ==> !occurs_at(s, pat, j)
}

/// The index of the leftmost occurrence of `pat` in `s`, if there is one.
pub open spec fn first_occurrence(s: Seq<char>, pat: Seq<char>) -> Option<int> {
    if exists|i: int| occurs_at(s, pat, i) {
        Some(choose|i: int| is_first_occurrence(s, pat, i))
    } else {
        None
    }
}

/// The leftmost occurrence is the only index that `is_first_occurrence`
/// accepts.
pub proof fn lemma_first_occurrence_is(s: Seq<char>, pat: Seq<char>, i: int)
    requires
        is_first_occurrence(s, pat, i),
    ensures
        first_occurrence(s, pat) == Some(i),
{
    let k = choose|k: int| is_first_occurrence(s, pat, k);
    assert(is_first_occurrence(s, pat, k));
    if k < i {
        assert(!occurs_at(s, pat, k));
    } else if i < k {
        assert(!occurs_at(s, pat, i));
    }
}

/// Where `pat` occurs at all, it has a leftmost occurrence, and that is what
/// `first_occurrence` gives.
pub proof fn lemma_first_occurrence_some(s: Seq<char>, pat: Seq<char>, k: int)
    requires
        occurs_at(s, pat, k),
    ensures
        first_occurrence(s, pat) matches Some(i) && i <= k && is_first_occurrence(s, pat, i),
    decreases k,
{
    if exists|j: int| 0 <= j < k && occurs_at(s, pat, j) {
        let j = choose|j: int| 0 <= j < k && occurs_at(s, pat, j);
        lemma_first_occurrence_some(s, pat, j);
    } else {
        assert(is_first_occurrence(s, pat, k));
        lemma_first_occurrence_is(s, pat, k);
    }
}

/// Where `pat` occurs nowhere, there is no leftmost occurrence.
pub proof fn lemma_first_occurrence_none(s: Seq<char>, pat: Seq<char>)
    requires
        forall|j: int| !occurs_at(s, pat, j),
    ensures
        first_occurrence(s, pat) is None,
{
}

/// What `first_occurrence` gives is the leftmost occurrence, and it gives
/// nothing only where there is no occurrence.
pub proof fn lemma_first_occurrence(s: Seq<char>, pat: Seq<char>)
    ensures
        match first_occurrence(s, pat) {
            Some(i) => is_first_occurrence(s, pat, i),
            None => forall|j: int| !occurs_at(s, pat, j),
        },
{
    if exists|k: int| occurs_at(s, pat, k) {
        let k = choose|k: int| occurs_at(s, pat, k);
        lemma_first_occurrence_some(s, pat, k);
    }
}

/// `s` up to the leftmost occurrence of `pat`, and all of `s` where there is
/// none.
pub open spec fn up_to(s: Seq<char>, pat: Seq<char>) -> Seq<char> {
    match first_occurrence(s, pat) {
        Some(i) => s.take(i),
        None => s,
    }
}

/// Whether `pat` stands in `s` at index `i`.
pub fn matches_at(s: &[char], pat: &[char], i: usize) -> (b: bool)
    ensures
        b == occurs_at(s@, pat@, i as int),
{
    if pat.len() > s.len() || i > s.len() - pat.len() {
        return false;
    }
    let mut k: usize = 0;
    while k < pat.len()
        invariant
            k <= pat.len(),
            i + pat.len() <= s.len(),
            forall|j: int| 0 <= j < k ==> s@[i + j] == pat@[j],
        decreases pat.len() - k,
    {
        if s[i + k] != pat[k] {
            assert(s@.subrange(i as int, i + pat.len())[k as int] != pat@[k as int]);
            return false;
        }
        k += 1;
    }
    assert(s@.subrange(i as int, i + pat.len()) =~= pat@);
    true
}

/// An occurrence in what is left of `s` after its first `from` characters is
/// an occurrence in `s`, `from` places further on.
pub proof fn lemma_occurs_at_skip(s: Seq<char>, pat: Seq<char>, from: int, i: int)
    requires
        0 <= from <= s.len(),
        0 <= i,
    ensures
        occurs_at(s.skip(from), pat, i) <==> occurs_at(s, pat, from + i),
{
    if from + i + pat.len() <= s.len() {
        assert(s.skip(from).subrange(i, i + pat.len()) =~= s.subrange(
            from + i,
            from + i + pat.len(),
        ));
    }
}

/// The index in `s` of the leftmost occurrence of `pat` that begins at index
/// `from` or later.
pub fn find_from(s: &[char], pat: &[char], from: usize) -> (r: Option<usize>)
    requires
        from <= s.len(),
    ensures
        match r {
            Some(i) => from <= i && first_occurrence(s@.skip(from as int), pat@) == Some(
                i - from,
            ) && is_first_occurrence(s@.skip(from as int), pat@, i - from),
            None => first_occurrence(s@.skip(from as int), pat@) is None,
        },
{
    let ghost rest = s@.skip(from as int);
    if pat.len() > s.len() - from {
        proof {
            lemma_first_occurrence_none(rest, pat@);
        }
        return None;
    }
    let last: usize = s.len() - pat.len();
    let mut i: usize = from;
    loop
        invariant
            from <= i <= last,
            last == s.len() - pat.len(),
            rest == s@.skip(from as int),
            forall|j: int| from <= j < i ==> !occurs_at(s@, pat@, j),
        decreases last - i,
    {
        if matches_at(s, pat, i) {
            proof {
                lemma_occurs_at_skip(s@, pat@, from as int, i - from);
                assert forall|k: int| 0 <= k < i - from implies !occurs_at(rest, pat@, k) by {
                    lemma_occurs_at_skip(s@, pat@, from as int, k);
                }
                lemma_first_occurrence_is(rest, pat@, i - from);
            }
            return Some(i);
        }
        if i == last {
            proof {
                assert forall|k: int| !occurs_at(rest, pat@, k) by {
                    if 0 <= k {
                        lemma_occurs_at_skip(s@, pat@, from as int, k);
                    }
                }
                lemma_first_occurrence_none(rest, pat@);
            }
            return None;
        }
        i += 1;
    }
}

/// The index of the leftmost occurrence of `pat` in `s`.
pub fn find(s: &[char], pat: &[char]) -> (r: Option<usize>)
    ensures
        match r {
            Some(i) => first_occurrence(s@, pat@) == Some(i as int) && is_first_occurrence(
                s@,
                pat@,
                i as int,
            ),
            None => first_occurrence(s@, pat@) is None,
        },
{
    assert(s@.skip(0) =~= s@);
    find_from(s, pat, 0)
}

/// A set of characters that a scan can run over.
#[derive(Clone, Copy, Debug, PartialEq, Eq, Structural)]
pub enum CharClass {
    /// Characters with the Unicode property `White_Space`.
    Whitespace,
    /// The double quote.
    Quote,
    /// Every character but the two round brackets.
    NonParen,
    /// Every character without the Unicode property `White_Space`.
    NonWhitespace,
}

impl CharClass {
    /// Whether `c` belongs to the class.
    pub open spec fn has(self, c: char) -> bool {
        match self {
            CharClass::Whitespace => is_whitespace(c),
            CharClass::Quote => c == '"',
            CharClass::NonParen => c != '(' && c != ')',
            CharClass::NonWhitespace => !is_whitespace(c),
        }
    }

    /// Whether `c` belongs to the class.
    pub fn contains(self, c: char) -> (b: bool)
        ensures
            b == self.has(c),
    {
        match self {
            CharClass::Whitespace => char_is_whitespace(c),
            CharClass::Quote => c == '"',
            CharClass::NonParen => c != '(' && c != ')',
            CharClass::NonWhitespace => !char_is_whitespace(c),
        }
    }
}

/// How many characters at the front of `s` belong to `class`: the length of
/// the longest prefix made of such characters.
pub open spec fn leading(s: Seq<char>, class: CharClass) -> nat
    decreases s.len(),
{
    if s.len() > 0 && class.has(s[0]) {
        1 + leading(s.drop_first(), class)
    } else {
        0
    }
}

/// `leading` is the one length `n` for which the first `n` characters are in
/// the class and the next one, if any, is not.
pub proof fn lemma_leading_is(s: Seq<char>, class: CharClass, n: nat)
    requires
        n <= s.len(),
        forall|i: int| 0 <= i < n ==> class.has(s[i]),
        n == s.len() || !class.has(s[n as int]),
    ensures
        leading(s, class) == n,
    decreases n,
{
    if n > 0 {
        let t = s.drop_first();
        assert forall|i: int| 0 <= i < n - 1 implies class.has(t[i]) by {
            assert(t[i] == s[i + 1]);
        }
        lemma_leading_is(t, class, (n - 1) as nat);
    }
}

/// How many characters at the back of `s` belong to `class`: the length of
/// the longest suffix made of such characters.
pub open spec fn trailing(s: Seq<char>, class: CharClass) -> nat
    decreases s.len(),
{
    if s.len() > 0 && class.has(s.last()) {
        1 + trailing(s.drop_last(), class)
    } else {
        0
    }
}

/// `trailing` is the one length `n` for which the last `n` characters are in
/// the class and the one before them, if any, is not.
pub proof fn lemma_trailing_is(s: Seq<char>, class: CharClass, n: nat)
    requires
        n <= s.len(),
        forall|i: int| s.len() - n <= i < s.len() ==> class.has(s[i]),
        n == s.len() || !class.has(s[s.len() - n - 1]),
    ensures
        trailing(s, class) == n,
    decreases n,
{
    if n > 0 {
        let t = s.drop_last();
        assert forall|i: int| t.len() - (n - 1) <= i < t.len() implies class.has(t[i]) by {
            assert(t[i] == s[i]);
        }
        if n < s.len() {
            assert(t[t.len() - (n - 1) - 1] == s[s.len() - n - 1]);
        }
        lemma_trailing_is(t, class, (n - 1) as nat);
    }
}

/// The first word of `s`: what stands between the blanks at its front and
/// the next blank, or the end. It is empty where `s` holds blanks only.
pub open spec fn first_word(s: Seq<char>) -> Seq<char> {
    let start = s.skip(leading(s, CharClass::Whitespace) as int);
    start.take(leading(start, CharClass::NonWhitespace) as int)
}

/// `s` without the characters of `class` at its front and at its back.
pub open spec fn trim(s: Seq<char>, class: CharClass) -> Seq<char> {
    let start = s.skip(leading(s, class) as int);
    start.take(start.len() - trailing(start, class))
}

/// The first word is found by its place: `blanks` blanks stand before it,
/// it is `length` characters without a blank, at least one, and a blank or
/// the end follows.
pub proof fn lemma_first_word_is(s: Seq<char>, blanks: int, length: int)
    requires
        0 <= blanks,
        0 < length,
        blanks + length <= s.len(),
        forall|i: int| 0 <= i < blanks ==> is_whitespace(s[i]),
        forall|i: int| blanks <= i < blanks + length ==> !is_whitespace(s[i]),
        blanks + length == s.len() || is_whitespace(s[blanks + length]),
    ensures
        first_word(s) == s.subrange(blanks, blanks + length),
{
    assert(forall|i: int| 0 <= i < blanks ==> CharClass::Whitespace.has(s[i]));
    lemma_leading_is(s, CharClass::Whitespace, blanks as nat);
    let start = s.skip(blanks);
    assert forall|i: int| 0 <= i < length implies CharClass::NonWhitespace.has(start[i]) by {
        assert(start[i] == s[blanks + i]);
    }
    if length < start.len() {
        assert(start[length] == s[blanks + length]);
    }
    lemma_leading_is(start, CharClass::NonWhitespace, length as nat);
    assert(first_word(s) =~= s.subrange(blanks, blanks + length));
}

/// What trimming leaves is found by its place: `front` characters of the
/// class stand before it, `back` after it, and it begins and ends with a
/// character that is not of the class.
pub proof fn lemma_trim_is(s: Seq<char>, class: CharClass, front: nat, back: nat)
    requires
        front + back < s.len(),
        forall|i: int| 0 <= i < front ==> class.has(s[i]),
        forall|i: int| s.len() - back <= i < s.len() ==> class.has(s[i]),
        !class.has(s[front as int]),
        !class.has(s[s.len() - back - 1]),
    ensures
        trim(s, class) == s.subrange(front as int, s.len() - back),
{
    lemma_leading_is(s, class, front);
    let start = s.skip(front as int);
    assert forall|i: int| start.len() - back <= i < start.len() implies class.has(start[i]) by {
        assert(start[i] == s[i + front]);
    }
    assert(start[start.len() - back - 1] == s[s.len() - back - 1]);
    lemma_trailing_is(start, class, back);
    assert(trim(s, class) =~= s.subrange(front as int, s.len() - back));
}

/// How many characters of `s` from index `from` on belong to `class`, up to
/// the first that does not or up to index `to`.
pub fn count_leading(s: &[char], from: usize, to: usize, class: CharClass) -> (n: usize)
    requires
        from <= to <= s.len(),
    ensures
        n == leading(s@.subrange(from as int, to as int), class),
        from + n <= to,
{
    let mut i: usize = from;
    while i < to && class.contains(s[i])
        invariant
            from <= i <= to <= s.len(),
            forall|j: int| from <= j < i ==> class.has(s@[j]),
        decreases to - i,
    {
        i += 1;
    }
    proof {
        lemma_leading_is(s@.subrange(from as int, to as int), class, (i - from) as nat);
    }
    i - from
}

/// How many characters of `s` before index `to` belong to `class`, back to
/// the first that does not or back to index `from`.
pub fn count_trailing(s: &[char], from: usize, to: usize, class: CharClass) -> (n: usize)
    requires
        from <= to <= s.len(),
    ensures
        n == trailing(s@.subrange(from as int, to as int), class),
        from + n <= to,
{
    let mut i: usize = to;
    while i > from && class.contains(s[i - 1])
        invariant
            from <= i <= to <= s.len(),
            forall|j: int| i <= j < to ==> class.has(s@[j]),
        decreases i - from,
    {
        i -= 1;
    }
    proof {
        lemma_trailing_is(s@.subrange(from as int, to as int), class, (to - i) as nat);
    }
    to - i
}

/// The pieces of `s` between the occurrences of `sep`, in order. There is
/// always at least one piece, and a piece may be empty.
pub open spec fn split(s: Seq<char>, sep: char) -> Seq<Seq<char>>
    decreases s.len(),
{
    if s.len() == 0 {
        seq![Seq::<char>::empty()]
    } else {
        let init = split(s.drop_last(), sep);
        if s.last() == sep {
            init.push(Seq::<char>::empty())
        } else {
            init.update(init.len() - 1, init.last().push(s.last()))
        }
    }
}

/// A text always splits into at least one piece.
pub proof fn lemma_split_nonempty(s: Seq<char>, sep: char)
    ensures
        split(s, sep).len() >= 1,
    decreases s.len(),
{
    if s.len() > 0 {
        lemma_split_nonempty(s.drop_last(), sep);
    }
}

/// A text without the separator is one piece: itself.
pub proof fn lemma_split_without_separator(s: Seq<char>, sep: char)
    requires
        forall|i: int| 0 <= i < s.len() ==> s[i] != sep,
    ensures
        split(s, sep) == seq![s],
    decreases s.len(),
{
    if s.len() > 0 {
        let init = s.drop_last();
        lemma_split_without_separator(init, sep);
        assert(init.push(s.last()) =~= s);
        assert(seq![init].update(0, init.push(s.last())) =~= seq![s]);
    } else {
        assert(s =~= Seq::<char>::empty());
    }
}

/// Splitting goes through a separator: the pieces of `s`, `sep`, `t` are the
/// pieces of `s` followed by the pieces of `t`.
pub proof fn lemma_split_at_separator(s: Seq<char>, t: Seq<char>, sep: char)
    ensures
        split(s + seq![sep] + t, sep) == split(s, sep) + split(t, sep),
    decreases t.len(),
{
    let whole = s + seq![sep] + t;
    if t.len() == 0 {
        assert(whole.drop_last() =~= s);
        assert(split(s, sep).push(Seq::<char>::empty()) =~= split(s, sep) + split(t, sep));
    } else {
        let init = t.drop_last();
        lemma_split_at_separator(s, init, sep);
        lemma_split_nonempty(init, sep);
        assert(whole.drop_last() =~= s + seq![sep] + init);
        assert(whole.last() == t.last());
        let left = split(s, sep);
        let right = split(init, sep);
        if t.last() == sep {
            assert((left + right).push(Seq::<char>::empty()) =~= left + right.push(
                Seq::<char>::empty(),
            ));
        } else {
            assert((left + right).update(
                (left + right).len() - 1,
                (left + right).last().push(t.last()),
            ) =~= left + right.update(right.len() - 1, right.last().push(t.last())));
        }
    }
}

} // verus!
