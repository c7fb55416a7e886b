//! Version triples: how one is written in a build recipe and in a changelog,
//! how two are compared, and how one is printed.

use crate::number::{
    all_digits, decimal, lemma_decimal_spells, parse_digits, parse_u8, push_decimal, read_u8,
};
use crate::text::{
    chars_of, count_leading, count_trailing, find, find_from, first_occurrence, first_word,
    is_digit, is_whitespace, leading, lemma_first_occurrence, lemma_first_occurrence_is,
    lemma_first_word_is, lemma_leading_is, lemma_split_at_separator,
    lemma_split_without_separator, lemma_trim_is, occurs_at, split, trim, up_to, CharClass,
};
use crate::update::Package;
use vstd::prelude::*;
use vstd::string::StringExecFns;

verus! {

/// Why no version could be read from a text.
#[derive(Clone, Copy, Debug, PartialEq, Eq, Structural)]
pub enum VersionError {
    /// The text does not hold the mark that introduces the version.
    NotFound,
    /// The mark is there, but what follows it is not a version.
    Malformed,
}

/// The version that dotted fields spell: there are at least three fields,
/// every one of them is a byte, and the first three are the version.
pub open spec fn version_of_fields(fields: Seq<Seq<char>>) -> Result<(u8, u8, u8), VersionError> {
    if fields.len() >= 3 && forall|k: int|
        0 <= k < fields.len() ==> (#[trigger] parse_u8(fields[k])) is Some {
        Ok((parse_u8(fields[0])->0, parse_u8(fields[1])->0, parse_u8(fields[2])->0))
    } else {
        Err(VersionError::Malformed)
    }
}

/// The version of the topmost entry of a changelog: the text between the
/// first `(` and the next round bracket of either kind (or the end), split
/// at its dots.
pub open spec fn changelog_version(text: Seq<char>) -> Result<(u8, u8, u8), VersionError> {
    match first_occurrence(text, "("@) {
        None => Err(VersionError::NotFound),
        Some(i) => {
            let rest = text.skip(i + "("@.len());
            version_of_fields(split(rest.take(leading(rest, CharClass::NonParen) as int), '.'))
        },
    }
}

/// The version that a build recipe declares: the first word of what stands
/// between the first `pkgver=` and the next one (or the end), without the
/// double quotes around it, split at its dots.
pub open spec fn pkgbuild_version(text: Seq<char>) -> Result<(u8, u8, u8), VersionError> {
    match first_occurrence(text, "pkgver="@) {
        None => Err(VersionError::NotFound),
        Some(i) => {
            let field = up_to(text.skip(i + "pkgver="@.len()), "pkgver="@);
            version_of_fields(split(trim(first_word(field), CharClass::Quote), '.'))
        },
    }
}

/// Reads the characters of `s` from index `from` up to `to` as dotted
/// fields that spell a version.
pub fn read_dotted_version(s: &[char], from: usize, to: usize) -> (r: Result<
    (u8, u8, u8),
    VersionError,
>)
    requires
        from <= to <= s.len(),
    ensures
        r == version_of_fields(split(s@.subrange(from as int, to as int), '.')),
{
    let ghost inner = s@.subrange(from as int, to as int);
    let ghost mut closed: Seq<Seq<char>> = Seq::empty();
    let mut values: Vec<u8> = Vec::new();
    let mut valid: bool = true;
    let mut start: usize = from;
    let mut i: usize = from;
    proof {
        assert(inner.take(0) =~= Seq::<char>::empty());
        assert(s@.subrange(start as int, i as int) =~= Seq::<char>::empty());
        assert(seq![Seq::<char>::empty()] =~= closed.push(Seq::<char>::empty()));
    }
    while i < to
        invariant
            from <= start <= i <= to <= s.len(),
            inner == s@.subrange(from as int, to as int),
            split(inner.take(i - from), '.') == closed.push(s@.subrange(start as int, i as int)),
            valid ==> values@.len() == closed.len(),
            valid ==> forall|k: int|
                0 <= k < closed.len() ==> (#[trigger] parse_u8(closed[k])) == Some(values@[k]),
            !valid ==> exists|k: int|
                0 <= k < closed.len() && (#[trigger] parse_u8(closed[k])) is None,
        decreases to - i,
    {
        let ghost field = s@.subrange(start as int, i as int);
        let ghost before = inner.take(i - from);
        let ghost after = inner.take(i - from + 1);
        proof {
            assert(after.drop_last() =~= before);
            assert(after.last() == s@[i as int]);
        }
        if s[i] == '.' {
            if valid {
                match read_u8(s, start, i) {
                    Some(v) => {
                        values.push(v);
                    },
                    None => {
                        valid = false;
                    },
                }
            }
            proof {
                let ghost earlier = closed;
                closed = closed.push(field);
                assert(forall|k: int| 0 <= k < earlier.len() ==> closed[k] == earlier[k]);
                assert(closed[earlier.len() as int] == field);
                assert(s@.subrange(i + 1, i + 1) =~= Seq::<char>::empty());
            }
            start = i + 1;
        } else {
            proof {
                assert(s@.subrange(start as int, i + 1) =~= field.push(s@[i as int]));
                assert(closed.push(field).update(closed.len() as int, field.push(s@[i as int]))
                    =~= closed.push(field.push(s@[i as int])));
            }
        }
        i += 1;
    }
    let ghost last = s@.subrange(start as int, to as int);
    let ghost fields = closed.push(last);
    proof {
        assert(inner.take(to - from) =~= inner);
        assert(forall|k: int| 0 <= k < closed.len() ==> fields[k] == closed[k]);
        assert(fields[closed.len() as int] == last);
    }
    if !valid {
        return Err(VersionError::Malformed);
    }
    match read_u8(s, start, to) {
        None => Err(VersionError::Malformed),
        Some(v) => {
            values.push(v);
            assert forall|k: int| 0 <= k < fields.len() implies (#[trigger] parse_u8(fields[k]))
                == Some(values@[k]) by {
                if k < closed.len() {
                    assert(parse_u8(closed[k]) == Some(values@[k]));
                }
            }
            if values.len() >= 3 {
                Ok((values[0], values[1], values[2]))
            } else {
                Err(VersionError::Malformed)
            }
        },
    }
}

impl Package {
    /// The latest version of a package for Arch hosts, read from the text of
    /// its build recipe.
    pub fn get_latest_version_arch(text: &str) -> (r: Result<(u8, u8, u8), VersionError>)
        ensures
            r == pkgbuild_version(text@),
    {
        let chars = chars_of(text);
        let key = chars_of("pkgver=");
        match find(chars.as_slice(), key.as_slice()) {
            None => Err(VersionError::NotFound),
            Some(i) => {
                assert(i + key.len() <= chars.len());
                let rest: usize = i + key.len();
                let end: usize = match find_from(chars.as_slice(), key.as_slice(), rest) {
                    Some(next) => next,
                    None => chars.len(),
                };
                let ghost field = up_to(text@.skip(rest as int), key@);
                assert(field =~= text@.subrange(rest as int, end as int));
                let blanks = count_leading(chars.as_slice(), rest, end, CharClass::Whitespace);
                let word: usize = rest + blanks;
                let length = count_leading(chars.as_slice(), word, end, CharClass::NonWhitespace);
                let word_end: usize = word + length;
                proof {
                    assert(field.skip(blanks as int) =~= text@.subrange(word as int, end as int));
                    assert(first_word(field) =~= text@.subrange(word as int, word_end as int));
                }
                let opening = count_leading(chars.as_slice(), word, word_end, CharClass::Quote);
                let from: usize = word + opening;
                let closing = count_trailing(chars.as_slice(), from, word_end, CharClass::Quote);
                let to: usize = word_end - closing;
                proof {
                    let inner = first_word(field).skip(opening as int);
                    assert(inner =~= text@.subrange(from as int, word_end as int));
                    assert(trim(first_word(field), CharClass::Quote) =~= text@.subrange(
                        from as int,
                        to as int,
                    ));
                }
                read_dotted_version(chars.as_slice(), from, to)
            },
        }
    }

    /// The latest version of a package for Debian hosts, read from the text
    /// of its changelog.
    pub fn get_latest_version_debian(text: &str) -> (r: Result<(u8, u8, u8), VersionError>)
        ensures
            r == changelog_version(text@),
    {
        let chars = chars_of(text);
        let open = chars_of("(");
        match find(chars.as_slice(), open.as_slice()) {
            None => Err(VersionError::NotFound),
            Some(i) => {
                assert(i + open.len() <= chars.len());
                let from: usize = i + open.len();
                let inside = count_leading(
                    chars.as_slice(),
                    from,
                    chars.len(),
                    CharClass::NonParen,
                );
                let to: usize = from + inside;
                proof {
                    let rest = text@.skip(from as int);
                    assert(rest =~= text@.subrange(from as int, text@.len() as int));
                    assert(rest.take(inside as int) =~= text@.subrange(from as int, to as int));
                }
                read_dotted_version(chars.as_slice(), from, to)
            },
        }
    }
}

/// How a published version stands to the recorded one.
#[derive(Clone, Copy, Debug, PartialEq, Eq, Structural)]
pub enum VersionChange {
    /// The published version is newer than the recorded one.
    Upgrade,
    /// The two are the same.
    UpToDate,
    /// The published version is older than the recorded one.
    Downgrade,
}

/// `a` is older than `b`: the parts are weighed in order, major, then minor,
/// then patch, and the first part that differs decides.
pub open spec fn precedes(a: (u8, u8, u8), b: (u8, u8, u8)) -> bool {
    a.0 < b.0 || (a.0 == b.0 && (a.1 < b.1 || (a.1 == b.1 && a.2 < b.2)))
}

/// How `latest` stands to `current`: an upgrade exactly where `current` is
/// older.
pub open spec fn version_change(current: (u8, u8, u8), latest: (u8, u8, u8)) -> VersionChange {
    if precedes(current, latest) {
        VersionChange::Upgrade
    } else if current == latest {
        VersionChange::UpToDate
    } else {
        VersionChange::Downgrade
    }
}

/// How `latest` stands to `current`.
pub fn compare_versions(current: (u8, u8, u8), latest: (u8, u8, u8)) -> (change: VersionChange)
    ensures
        change == version_change(current, latest),
{
    if current.0 != latest.0 {
        if current.0 < latest.0 {
            VersionChange::Upgrade
        } else {
            VersionChange::Downgrade
        }
    } else if current.1 != latest.1 {
        if current.1 < latest.1 {
            VersionChange::Upgrade
        } else {
            VersionChange::Downgrade
        }
    } else if current.2 != latest.2 {
        if current.2 < latest.2 {
            VersionChange::Upgrade
        } else {
            VersionChange::Downgrade
        }
    } else {
        VersionChange::UpToDate
    }
}

/// Being older is a strict order: no version is older than itself, two
/// versions are never each older than the other, and what is older than an
/// older version is older still.
pub proof fn lemma_precedes_is_strict_order(a: (u8, u8, u8), b: (u8, u8, u8), c: (u8, u8, u8))
    ensures
        !precedes(a, a),
        precedes(a, b) ==> !precedes(b, a),
        precedes(a, b) && precedes(b, c) ==> precedes(a, c),
{
}

/// Of two versions exactly one holds: the first is older, they are the same,
/// or the second is older.
pub proof fn lemma_precedes_is_total(a: (u8, u8, u8), b: (u8, u8, u8))
    ensures
        precedes(a, b) || a == b || precedes(b, a),
        !(precedes(a, b) && a == b),
        !(a == b && precedes(b, a)),
{
}

/// A change is a downgrade one way exactly where it is an upgrade the other
/// way.
pub proof fn lemma_downgrade_mirrors_upgrade(current: (u8, u8, u8), latest: (u8, u8, u8))
    ensures
        version_change(current, latest) == VersionChange::Downgrade <==> version_change(
            latest,
            current,
        ) == VersionChange::Upgrade,
        version_change(current, latest) == VersionChange::UpToDate <==> current == latest,
{
}

/// Three fields with dots between them.
pub open spec fn dotted(x: Seq<char>, y: Seq<char>, z: Seq<char>) -> Seq<char> {
    x + "."@ + y + "."@ + z
}

/// A version in print: the three parts in decimal, with dots between them.
pub open spec fn version_text(version: (u8, u8, u8)) -> Seq<char> {
    dotted(decimal(version.0 as nat), decimal(version.1 as nat), decimal(version.2 as nat))
}

/// `x`, `y` and `z` are runs of digits that spell the three parts of
/// `version`. Leading zeros are allowed.
pub open spec fn spells(x: Seq<char>, y: Seq<char>, z: Seq<char>, version: (u8, u8, u8)) -> bool {
    &&& parse_digits(x) == Some(version.0)
    &&& parse_digits(y) == Some(version.1)
    &&& parse_digits(z) == Some(version.2)
}

/// The parts of a version in print spell that version.
pub proof fn lemma_version_text_spells(version: (u8, u8, u8))
    ensures
        spells(
            decimal(version.0 as nat),
            decimal(version.1 as nat),
            decimal(version.2 as nat),
            version,
        ),
{
    lemma_decimal_spells(version.0 as nat);
    lemma_decimal_spells(version.1 as nat);
    lemma_decimal_spells(version.2 as nat);
}

/// Three runs of digits with dots between them are made of digits and dots,
/// and begin and end with a digit.
pub proof fn lemma_dotted_chars(x: Seq<char>, y: Seq<char>, z: Seq<char>)
    requires
        all_digits(x) && x.len() > 0,
        all_digits(y),
        all_digits(z) && z.len() > 0,
    ensures
        dotted(x, y, z).len() == x.len() + y.len() + z.len() + 2,
        is_digit(dotted(x, y, z)[0]),
        is_digit(dotted(x, y, z)[dotted(x, y, z).len() - 1]),
        forall|i: int|
            0 <= i < dotted(x, y, z).len() ==> is_digit(#[trigger] dotted(x, y, z)[i]) || dotted(
                x,
                y,
                z,
            )[i] == '.',
{
    reveal_strlit(".");
    let text = dotted(x, y, z);
    assert(text[0] == x[0]);
    assert(text[text.len() - 1] == z[z.len() - 1]);
    assert forall|i: int| 0 <= i < text.len() implies is_digit(#[trigger] text[i]) || text[i]
        == '.' by {
        if i < x.len() {
            assert(text[i] == x[i]);
        } else if i == x.len() {
        } else if i < x.len() + 1 + y.len() {
            assert(text[i] == y[i - x.len() - 1]);
        } else if i == x.len() + 1 + y.len() {
        } else {
            assert(text[i] == z[i - x.len() - y.len() - 2]);
        }
    }
}

/// Three runs of digits that spell a version, with dots between them, are
/// read as that version.
pub proof fn lemma_dotted_reads_back(
    x: Seq<char>,
    y: Seq<char>,
    z: Seq<char>,
    version: (u8, u8, u8),
)
    requires
        spells(x, y, z, version),
    ensures
        version_of_fields(split(dotted(x, y, z), '.')) == Ok::<(u8, u8, u8), VersionError>(
            version,
        ),
{
    reveal_strlit(".");
    assert(is_digit(x[0]) && is_digit(y[0]) && is_digit(z[0]));
    assert(parse_u8(x) == Some(version.0));
    assert(parse_u8(y) == Some(version.1));
    assert(parse_u8(z) == Some(version.2));
    lemma_split_without_separator(x, '.');
    lemma_split_without_separator(y, '.');
    lemma_split_without_separator(z, '.');
    lemma_split_at_separator(x, y, '.');
    lemma_split_at_separator(x + seq!['.'] + y, z, '.');
    assert("."@ =~= seq!['.']);
    let fields = split(dotted(x, y, z), '.');
    assert(fields =~= seq![x, y, z]);
}

/// What is printed is read back: the dotted fields of a version in print
/// spell that version.
pub proof fn lemma_version_text_reads_back(version: (u8, u8, u8))
    ensures
        version_of_fields(split(version_text(version), '.')) == Ok::<
            (u8, u8, u8),
            VersionError,
        >(version),
{
    lemma_version_text_spells(version);
    lemma_dotted_reads_back(
        decimal(version.0 as nat),
        decimal(version.1 as nat),
        decimal(version.2 as nat),
        version,
    );
}

/// A changelog that opens with an entry for a version is read as that
/// version: `head` is what stands before the first `(`, the runs of digits
/// `x`, `y` and `z` spell the version, and `tail` is what follows, a round
/// bracket first unless it is empty.
pub proof fn lemma_changelog_entry_reads_back(
    head: Seq<char>,
    x: Seq<char>,
    y: Seq<char>,
    z: Seq<char>,
    version: (u8, u8, u8),
    tail: Seq<char>,
)
    requires
        forall|i: int| 0 <= i < head.len() ==> head[i] != '(',
        spells(x, y, z, version),
        tail.len() == 0 || tail[0] == ')' || tail[0] == '(',
    ensures
        changelog_version(head + "("@ + dotted(x, y, z) + tail) == Ok::<
            (u8, u8, u8),
            VersionError,
        >(version),
{
    reveal_strlit("(");
    let open = "("@;
    let printed = dotted(x, y, z);
    let text = head + open + printed + tail;
    let at = head.len() as int;
    assert(text.subrange(at, at + 1) =~= open);
    assert forall|j: int| 0 <= j < at implies !occurs_at(text, open, j) by {
        assert(text.subrange(j, j + 1)[0] == head[j]);
    }
    lemma_first_occurrence_is(text, open, at);
    let rest = text.skip(at + 1);
    assert(rest =~= printed + tail);
    lemma_dotted_chars(x, y, z);
    assert forall|i: int| 0 <= i < printed.len() implies CharClass::NonParen.has(rest[i]) by {
        assert(rest[i] == printed[i]);
        assert(is_digit(printed[i]) || printed[i] == '.');
    }
    if tail.len() > 0 {
        assert(rest[printed.len() as int] == tail[0]);
    }
    lemma_leading_is(rest, CharClass::NonParen, printed.len());
    assert(rest.take(printed.len() as int) =~= printed);
    lemma_dotted_reads_back(x, y, z, version);
}

/// A build recipe that declares a version is read as that version: `head`
/// is what stands before the first `pkgver=`, `blanks` may stand between the
/// key and the value, double quotes may stand around the value, the runs of
/// digits `x`, `y` and `z` spell the version, and `tail`, what follows,
/// begins with a blank unless it is empty.
pub proof fn lemma_pkgbuild_entry_reads_back(
    head: Seq<char>,
    blanks: Seq<char>,
    opening: Seq<char>,
    x: Seq<char>,
    y: Seq<char>,
    z: Seq<char>,
    version: (u8, u8, u8),
    closing: Seq<char>,
    tail: Seq<char>,
)
    requires
        forall|j: int| 0 <= j < head.len() ==> !occurs_at(head + "pkgver="@, "pkgver="@, j),
        forall|i: int| 0 <= i < blanks.len() ==> is_whitespace(blanks[i]),
        forall|i: int| 0 <= i < opening.len() ==> opening[i] == '"',
        forall|i: int| 0 <= i < closing.len() ==> closing[i] == '"',
        spells(x, y, z, version),
        tail.len() == 0 || is_whitespace(tail[0]),
    ensures
        pkgbuild_version(head + "pkgver="@ + blanks + opening + dotted(x, y, z) + closing + tail)
            == Ok::<(u8, u8, u8), VersionError>(version),
{
    reveal_strlit("pkgver=");
    let key = "pkgver="@;
    let printed = dotted(x, y, z);
    let text = head + key + blanks + opening + printed + closing + tail;
    let at = head.len() as int;
    assert(text.subrange(at, at + key.len()) =~= key);
    assert forall|j: int| 0 <= j < at implies !occurs_at(text, key, j) by {
        if occurs_at(text, key, j) {
            assert((head + key).subrange(j, j + key.len()) =~= text.subrange(j, j + key.len()));
            assert(occurs_at(head + key, key, j));
        }
    }
    lemma_first_occurrence_is(text, key, at);

    let rest = text.skip(at + key.len());
    let quoted = opening + printed + closing;
    let b = blanks.len() as int;
    let w = quoted.len() as int;
    assert(rest =~= blanks + quoted + tail);
    lemma_dotted_chars(x, y, z);
    lemma_quoted_chars(opening, printed, closing);
    assert(tail.len() > 0 ==> rest[b + w] == tail[0]);

    let field = up_to(rest, key);
    assert(b + w <= field.len() <= rest.len() && (tail.len() > 0 ==> b + w < field.len())
        && forall|i: int| 0 <= i < field.len() ==> field[i] == rest[i]) by {
        lemma_first_occurrence(rest, key);
        match first_occurrence(rest, key) {
            Some(j) => {
                assert(rest.subrange(j, j + key.len())[0] == key[0]);
                assert(rest[j] == 'p');
                if j < b {
                    assert(rest[j] == blanks[j]);
                } else if j < b + w {
                    assert(rest[j] == quoted[j - b]);
                }
            },
            None => {},
        }
    }
    assert(first_word(field) =~= quoted) by {
        assert forall|i: int| 0 <= i < b implies is_whitespace(field[i]) by {
            assert(field[i] == blanks[i]);
        }
        assert forall|i: int| b <= i < b + w implies !is_whitespace(field[i]) by {
            assert(field[i] == quoted[i - b]);
        }
        if b + w < field.len() {
            assert(tail.len() > 0);
            assert(field[b + w] == rest[b + w]);
        }
        lemma_first_word_is(field, b, w);
        assert forall|i: int| 0 <= i < w implies field.subrange(b, b + w)[i] == quoted[i] by {
            assert(field[b + i] == rest[b + i]);
        }
    }
    assert(trim(quoted, CharClass::Quote) =~= printed) by {
        assert forall|i: int| 0 <= i < opening.len() implies CharClass::Quote.has(quoted[i]) by {
            assert(quoted[i] == opening[i]);
        }
        let inner_end = quoted.len() - closing.len();
        assert forall|i: int| inner_end <= i < quoted.len() implies CharClass::Quote.has(
            quoted[i],
        ) by {
            assert(quoted[i] == closing[i - inner_end]);
        }
        assert(quoted[opening.len() as int] == printed[0]);
        assert(quoted[quoted.len() - closing.len() - 1] == printed[printed.len() - 1]);
        lemma_trim_is(quoted, CharClass::Quote, opening.len(), closing.len());
    }
    lemma_dotted_reads_back(x, y, z, version);
}

/// Digits and dots with double quotes around them hold no blank and no `p`.
proof fn lemma_quoted_chars(opening: Seq<char>, printed: Seq<char>, closing: Seq<char>)
    requires
        forall|i: int| 0 <= i < opening.len() ==> opening[i] == '"',
        forall|i: int| 0 <= i < closing.len() ==> closing[i] == '"',
        forall|i: int|
            0 <= i < printed.len() ==> is_digit(#[trigger] printed[i]) || printed[i] == '.',
    ensures
        forall|i: int|
            0 <= i < (opening + printed + closing).len() ==> {
                let c = #[trigger] (opening + printed + closing)[i];
                !is_whitespace(c) && c != 'p'
            },
{
    let quoted = opening + printed + closing;
    assert forall|i: int| 0 <= i < quoted.len() implies {
        let c = #[trigger] quoted[i];
        !is_whitespace(c) && c != 'p'
    } by {
        if i < opening.len() {
            assert(quoted[i] == opening[i]);
        } else if i < opening.len() + printed.len() {
            let c = printed[i - opening.len()];
            assert(quoted[i] == c);
            assert(is_digit(c) || c == '.');
        } else {
            assert(quoted[i] == closing[i - opening.len() - printed.len()]);
        }
    }
}

/// Appends `version` in print to `out`.
pub fn push_version(out: &mut String, version: (u8, u8, u8))
    ensures
        final(out)@ == old(out)@ + version_text(version),
{
    let ghost before = out@;
    push_decimal(out, version.0);
    out.append(".");
    push_decimal(out, version.1);
    out.append(".");
    push_decimal(out, version.2);
    assert(out@ =~= before + version_text(version));
}

} // verus!
