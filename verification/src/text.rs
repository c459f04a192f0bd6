//! Text as sequences of characters.

use vstd::prelude::*;
use vstd::string::*;

verus! {

/// A hexadecimal digit in small letters.
pub open spec fn hex_digit(d: int) -> char {
    if d < 10 {
        ((48 + d) as u8) as char
    } else {
        ((87 + d) as u8) as char
    }
}

/// The characters of a text.
pub fn chars_of(s: &str) -> (r: Vec<char>)
    ensures
        r@ == s@,
{
    let mut out: Vec<char> = Vec::new();
    for c in it: s.chars()
        invariant
            it.seq() == s@,
            out@ == s@.take(it.index()),
    {
        out.push(c);
        assert(s@.take(it.index() + 1) =~= s@.take(it.index()).push(c));
    }
    assert(s@.take(s@.len() as int) =~= s@);
    out
}

/// The text of the characters in `from..to`.
pub fn text_between(chars: &Vec<char>, from: usize, to: usize) -> (r: String)
    requires
        from <= to <= chars@.len(),
    ensures
        r@ == chars@.subrange(from as int, to as int),
{
    let mut out = String::new();
    let mut i: usize = from;
    assert(chars@.subrange(from as int, from as int) =~= Seq::empty());
    while i < to
        invariant
            from <= i <= to <= chars@.len(),
            out@ == chars@.subrange(from as int, i as int),
        decreases to - i,
    {
        out.push(chars[i]);
        assert(chars@.subrange(from as int, i + 1) =~= chars@.subrange(from as int, i as int).push(
            chars@[i as int],
        ));
        i = i + 1;
    }
    out
}

/// Whether two texts are the same.
pub fn same_text(a: &str, b: &str) -> (r: bool)
    ensures
        r == (a@ == b@),
{
    let x = a.to_owned();
    let y = b.to_owned();
    x == y
}

/// The texts of a list.
pub open spec fn views(texts: Seq<String>) -> Seq<Seq<char>> {
    texts.map_values(|s: String| s@)
}

pub proof fn lemma_views_push(texts: Seq<String>, s: String)
    ensures
        views(texts.push(s)) == views(texts).push(s@),
{
    assert(views(texts.push(s)) =~= views(texts).push(s@));
}

/// The texts of a list, one after the other with `separator` in between.
pub open spec fn joined(texts: Seq<Seq<char>>, separator: Seq<char>) -> Seq<char>
    decreases texts.len(),
{
    if texts.len() == 0 {
        Seq::empty()
    } else if texts.len() == 1 {
        texts[0]
    } else {
        joined(texts.drop_last(), separator) + separator + texts.last()
    }
}

/// The texts of a list in one.
pub fn join(texts: &Vec<String>, separator: &str) -> (r: String)
    ensures
        r@ == joined(views(texts@), separator@),
{
    let mut out = String::new();
    let mut i: usize = 0;
    let ghost all = views(texts@);
    assert(all.take(0) =~= Seq::empty());
    while i < texts.len()
        invariant
            i <= texts@.len(),
            all == views(texts@),
            out@ == joined(all.take(i as int), separator@),
        decreases texts@.len() - i,
    {
        if i > 0 {
            out.append(separator);
        }
        out.append(texts[i].as_str());
        proof {
            let next = all.take(i + 1);
            assert(next.drop_last() =~= all.take(i as int));
            assert(next.last() == texts@[i as int]@);
            if i == 0 {
                assert(out@ =~= next[0]);
            }
        }
        i = i + 1;
    }
    assert(all.take(all.len() as int) =~= all);
    out
}

/// The letters `a` to `z` as capitals, everything else as it is.
pub open spec fn ascii_capital(c: char) -> char {
    if 'a' <= c && c <= 'z' {
        ((c as int - 32) as u8) as char
    } else {
        c
    }
}

/// What `str::to_uppercase` returns.
pub uninterp spec fn uppercase_of(s: Seq<char>) -> Seq<char>;

/// `str::to_uppercase`: the result depends on the text alone, and on a text of ASCII characters
/// it turns the letters `a` to `z` into capitals and leaves the rest.
#[verifier::external_body]
pub(crate) fn uppercase(s: &str) -> (r: String)
    ensures
        r@ == uppercase_of(s@),
        is_ascii(s) ==> r@ == s@.map_values(|c: char| ascii_capital(c)),
{
    s.to_uppercase()
}

/// What `str::to_lowercase` returns.
pub uninterp spec fn lowercase_of(s: Seq<char>) -> Seq<char>;

/// The letters `A` to `Z` as small letters, everything else as it is.
pub open spec fn ascii_small(c: char) -> char {
    if 'A' <= c && c <= 'Z' {
        ((c as int + 32) as u8) as char
    } else {
        c
    }
}

/// `str::to_lowercase`: the result depends on the text alone, and on a text of ASCII characters
/// it turns the letters `A` to `Z` into small ones and leaves the rest.
#[verifier::external_body]
pub(crate) fn lowercase(s: &str) -> (r: String)
    ensures
        r@ == lowercase_of(s@),
        is_ascii(s) ==> r@ == s@.map_values(|c: char| ascii_small(c)),
{
    s.to_lowercase()
}

/// The characters with the Unicode property White_Space.
pub open spec fn white_space(c: char) -> bool {
    ||| '\u{9}' <= c && c <= '\u{d}'
    ||| c == ' '
    ||| c == '\u{85}'
    ||| c == '\u{a0}'
    ||| c == '\u{1680}'
    ||| '\u{2000}' <= c && c <= '\u{200a}'
    ||| c == '\u{2028}'
    ||| c == '\u{2029}'
    ||| c == '\u{202f}'
    ||| c == '\u{205f}'
    ||| c == '\u{3000}'
}

fn is_white(c: char) -> (r: bool)
    ensures
        r == white_space(c),
{
    ('\u{9}' <= c && c <= '\u{d}') || c == ' ' || c == '\u{85}' || c == '\u{a0}' || c == '\u{1680}'
        || ('\u{2000}' <= c && c <= '\u{200a}') || c == '\u{2028}' || c == '\u{2029}' || c
        == '\u{202f}' || c == '\u{205f}' || c == '\u{3000}'
}

/// How many characters at the start are white space.
pub open spec fn leading_white(s: Seq<char>) -> nat
    decreases s.len(),
{
    if s.len() > 0 && white_space(s[0]) {
        1 + leading_white(s.skip(1))
    } else {
        0
    }
}

/// How many characters at the end are white space.
pub open spec fn trailing_white(s: Seq<char>) -> nat
    decreases s.len(),
{
    if s.len() > 0 && white_space(s.last()) {
        1 + trailing_white(s.drop_last())
    } else {
        0
    }
}

/// The text without white space at its ends.
pub open spec fn trimmed(s: Seq<char>) -> Seq<char> {
    let rest = s.skip(leading_white(s) as int);
    rest.take(rest.len() - trailing_white(rest))
}

/// The text without white space at its ends.
pub fn trim(s: &str) -> (r: String)
    ensures
        r@ == trimmed(s@),
{
    let chars = chars_of(s);
    let mut from: usize = 0;
    assert(chars@.skip(0) =~= chars@);
    while from < chars.len() && is_white(chars[from])
        invariant
            from <= chars@.len(),
            leading_white(chars@) == from + leading_white(chars@.skip(from as int)),
        decreases chars@.len() - from,
    {
        assert(chars@.skip(from as int).skip(1) =~= chars@.skip(from + 1));
        from = from + 1;
    }
    let ghost rest = chars@.skip(from as int);
    assert(leading_white(rest) == 0);
    let mut to: usize = chars.len();
    assert(rest.take(rest.len() as int) =~= rest);
    while to > from && is_white(chars[to - 1])
        invariant
            from <= to <= chars@.len(),
            rest == chars@.skip(from as int),
            trailing_white(rest) == (chars@.len() - to) + trailing_white(rest.take(to - from)),
        decreases to,
    {
        assert(rest.take(to - from).drop_last() =~= rest.take(to - from - 1));
        assert(rest.take(to - from).last() == chars@[to - 1]);
        to = to - 1;
    }
    proof {
        if to > from {
            assert(rest.take(to - from).last() == chars@[to - 1]);
        }
        assert(trailing_white(rest.take(to - from)) == 0);
        assert(chars@.subrange(from as int, to as int) =~= rest.take(to - from));
    }
    text_between(&chars, from, to)
}

/// Whether `part` stands in `s` at position `i`.
pub open spec fn stands_at(s: Seq<char>, part: Seq<char>, i: int) -> bool {
    0 <= i && i + part.len() <= s.len() && s.subrange(i, i + part.len() as int) == part
}

/// Whether `part` stands somewhere in `s`.
pub open spec fn holds(s: Seq<char>, part: Seq<char>) -> bool {
    exists|i: int| stands_at(s, part, i)
}

/// Whether a text begins with another.
pub open spec fn begins_with(s: Seq<char>, part: Seq<char>) -> bool {
    stands_at(s, part, 0)
}

/// Whether a text ends with another.
pub open spec fn ends_in(s: Seq<char>, part: Seq<char>) -> bool {
    stands_at(s, part, s.len() - part.len())
}

fn part_at(s: &Vec<char>, part: &Vec<char>, i: usize) -> (r: bool)
    ensures
        r == stands_at(s@, part@, i as int),
{
    if part.len() > s.len() || i > s.len() - part.len() {
        return false;
    }
    let mut k: usize = 0;
    while k < part.len()
        invariant
            k <= part@.len(),
            i + part@.len() <= s.len(),
            forall|j: int| 0 <= j < k ==> s@[i + j] == part@[j],
        decreases part@.len() - k,
    {
        if s[i + k] != part[k] {
            assert(s@.subrange(i as int, i + part@.len())[k as int] == s@[i + k]);
            return false;
        }
        k = k + 1;
    }
    assert(s@.subrange(i as int, i + part@.len()) =~= part@);
    true
}

/// Whether one text stands somewhere in another.
pub fn contains_text(s: &str, part: &str) -> (r: bool)
    ensures
        r == holds(s@, part@),
{
    let chars = chars_of(s);
    let wanted = chars_of(part);
    let mut i: usize = 0;
    while i < chars.len()
        invariant
            i <= chars@.len(),
            chars@ == s@,
            wanted@ == part@,
            forall|j: int| 0 <= j < i ==> !stands_at(s@, part@, j),
        decreases chars@.len() - i,
    {
        if part_at(&chars, &wanted, i) {
            return true;
        }
        i = i + 1;
    }
    part_at(&chars, &wanted, i)
}

/// Whether a text begins with another.
pub fn starts_with(s: &str, part: &str) -> (r: bool)
    ensures
        r == begins_with(s@, part@),
{
    let chars = chars_of(s);
    let wanted = chars_of(part);
    part_at(&chars, &wanted, 0)
}

/// Whether a text ends with another.
pub fn ends_with(s: &str, part: &str) -> (r: bool)
    ensures
        r == ends_in(s@, part@),
{
    let chars = chars_of(s);
    let wanted = chars_of(part);
    if wanted.len() > chars.len() {
        return false;
    }
    part_at(&chars, &wanted, chars.len() - wanted.len())
}

/// The first `n` characters with every `c` replaced.
pub open spec fn replaced(s: Seq<char>, c: char, by: Seq<char>, n: nat) -> Seq<char>
    decreases n,
{
    if n == 0 {
        Seq::empty()
    } else {
        let rest = replaced(s, c, by, (n - 1) as nat);
        if s[n - 1] == c {
            rest + by
        } else {
            rest.push(s[n - 1])
        }
    }
}

/// A text with every `c` replaced.
pub fn replace_char(s: &str, c: char, by: &str) -> (r: String)
    ensures
        r@ == replaced(s@, c, by@, s@.len()),
{
    let chars = chars_of(s);
    let mut out = String::new();
    let mut n: usize = 0;
    while n < chars.len()
        invariant
            n <= chars@.len(),
            out@ == replaced(chars@, c, by@, n as nat),
        decreases chars@.len() - n,
    {
        if chars[n] == c {
            out.append(by);
        } else {
            out.push(chars[n]);
        }
        n = n + 1;
    }
    out
}

/// No white space leads the text or ends it.
pub open spec fn is_trimmed(s: Seq<char>) -> bool {
    s.len() > 0 ==> !white_space(s[0]) && !white_space(s.last())
}

proof fn lemma_leading_white(s: Seq<char>)
    ensures
        leading_white(s) <= s.len(),
        leading_white(s) < s.len() ==> !white_space(s[leading_white(s) as int]),
    decreases s.len(),
{
    if s.len() > 0 && white_space(s[0]) {
        lemma_leading_white(s.skip(1));
        assert(leading_white(s) == 1 + leading_white(s.skip(1)));
        if leading_white(s) < s.len() {
            assert(s.skip(1)[leading_white(s.skip(1)) as int] == s[leading_white(s) as int]);
        }
    }
}

proof fn lemma_trailing_white(s: Seq<char>)
    ensures
        trailing_white(s) <= s.len(),
        trailing_white(s) < s.len() ==> !white_space(s[s.len() - 1 - trailing_white(s)]),
    decreases s.len(),
{
    if s.len() > 0 && white_space(s.last()) {
        lemma_trailing_white(s.drop_last());
    }
}

/// A text without white space at its ends is left as it is.
pub proof fn trimming_leaves_trimmed(s: Seq<char>)
    requires
        is_trimmed(s),
    ensures
        trimmed(s) == s,
{
    assert(s.skip(0) =~= s);
    assert(s.take(s.len() as int) =~= s);
}

/// What is left of a text has no white space at its ends, so that trimming twice is trimming once.
pub proof fn trimming_trims(s: Seq<char>)
    ensures
        is_trimmed(trimmed(s)),
        trimmed(trimmed(s)) == trimmed(s),
{
    let rest = s.skip(leading_white(s) as int);
    let last = trimmed(s);
    lemma_leading_white(s);
    lemma_trailing_white(rest);
    if last.len() > 0 {
        assert(last[0] == s[leading_white(s) as int]);
        assert(last.last() == rest[rest.len() - 1 - trailing_white(rest)]);
    }
    trimming_leaves_trimmed(last);
}

/// Somewhere in a text a label is followed by a figure, and that by what comes next.
#[verifier::opaque]
pub open spec fn shows(text: Seq<char>, label: Seq<char>, figure: Seq<char>, next: Seq<char>) -> bool {
    exists|before: Seq<char>, behind: Seq<char>|
        text == #[trigger] (before + label + figure + next + behind)
}

/// The first `n` parts of a text, one behind the other.
pub open spec fn row(parts: Seq<Seq<char>>, n: nat) -> Seq<char>
    decreases n,
{
    if n == 0 {
        Seq::empty()
    } else if n == 1 {
        parts[0]
    } else {
        row(parts, (n - 1) as nat) + parts[n - 1]
    }
}

/// Three parts of a text that follow one another are shown by it.
pub proof fn lemma_row_shows(parts: Seq<Seq<char>>, n: nat, k: nat)
    requires
        k + 3 <= n <= parts.len(),
    ensures
        shows(row(parts, n), parts[k as int], parts[k as int + 1], parts[k as int + 2]),
    decreases n,
{
    reveal(shows);
    if n == k + 3 {
        let none = Seq::<char>::empty();
        let before = row(parts, k);
        reveal_with_fuel(row, 4);
        assert(none + parts[0] =~= parts[0]);
        assert(row(parts, n) =~= before + parts[k as int] + parts[k as int + 1] + parts[k as int + 2] + none);
    } else {
        lemma_row_shows(parts, (n - 1) as nat, k);
        lemma_shows_more(
            row(parts, (n - 1) as nat),
            parts[n - 1],
            parts[k as int],
            parts[k as int + 1],
            parts[k as int + 2],
        );
    }
}

/// What a text shows it also shows with more text behind it.
pub proof fn lemma_shows_more(
    text: Seq<char>,
    rest: Seq<char>,
    label: Seq<char>,
    figure: Seq<char>,
    next: Seq<char>,
)
    requires
        shows(text, label, figure, next),
    ensures
        shows(text + rest, label, figure, next),
{
    reveal(shows);
    let (before, behind) = choose|before: Seq<char>, behind: Seq<char>|
        text == #[trigger] (before + label + figure + next + behind);
    assert(text + rest =~= before + label + figure + next + (behind + rest));
}

/// What the first part and the one behind it begin with, the whole text begins with.
pub proof fn lemma_row_begins(parts: Seq<Seq<char>>, n: nat, part: Seq<char>)
    requires
        2 <= n <= parts.len(),
        begins_with(parts[0] + parts[1], part),
    ensures
        begins_with(row(parts, n), part),
    decreases n,
{
    if n == 2 {
        reveal_with_fuel(row, 3);
    } else {
        lemma_row_begins(parts, (n - 1) as nat, part);
        let shorter = row(parts, (n - 1) as nat);
        let whole = shorter + parts[n - 1];
        assert(whole.subrange(0, part.len() as int) =~= shorter.subrange(0, part.len() as int));
    }
}

/// A text ends with what is put behind it.
pub proof fn lemma_ends(before: Seq<char>, part: Seq<char>)
    ensures
        ends_in(before + part, part),
{
    let whole = before + part;
    assert(whole.subrange(before.len() as int, whole.len() as int) =~= part);
}

} // verus!
