//! Reading the kernel's text files: white space, lines, fields and prefixes.
//!
//! Text is handled as a slice of characters. The specification functions describe each
//! operation on the sequence of characters that a string holds.

use vstd::prelude::*;
use vstd::slice::slice_subrange;

verus! {

/// White space, as Unicode's `White_Space` property has it.
pub open spec fn white(c: char) -> bool {
    let n = c as u32;
    ||| 0x09 <= n <= 0x0D
    ||| n == 0x20
    ||| n == 0x85
    ||| n == 0xA0
    ||| n == 0x1680
    ||| 0x2000 <= n <= 0x200A
    ||| n == 0x2028
    ||| n == 0x2029
    ||| n == 0x202F
    ||| n == 0x205F
    ||| n == 0x3000
}

/// Whether `c` is white space.
pub fn is_white(c: char) -> (b: bool)
    ensures
        b == white(c),
{
    let n: u32 = c as u32;
    (0x09 <= n && n <= 0x0D) || n == 0x20 || n == 0x85 || n == 0xA0 || n == 0x1680 || (0x2000 <= n
        && n <= 0x200A) || n == 0x2028 || n == 0x2029 || n == 0x202F || n == 0x205F || n == 0x3000
}

/// The characters of a string.
pub fn characters(s: &str) -> (v: Vec<char>)
    ensures
        v@ == s@,
{
    let mut v: Vec<char> = Vec::new();
    for c in it: s.chars()
        invariant
            it.seq() == s@,
            v@ == s@.take(it.index() as int),
    {
        v.push(c);
    }
    v
}

/// Whether two texts are the same.
pub fn same(a: &[char], b: &[char]) -> (r: bool)
    ensures
        r == (a@ == b@),
{
    if a.len() != b.len() {
        return false;
    }
    let mut i: usize = 0;
    while i < a.len()
        invariant
            a@.len() == b@.len(),
            i <= a@.len(),
            a@.take(i as int) == b@.take(i as int),
        decreases a@.len() - i,
    {
        if a[i] != b[i] {
            return false;
        }
        assert(a@.take(i + 1) == a@.take(i as int).push(a@[i as int]));
        assert(b@.take(i + 1) == b@.take(i as int).push(b@[i as int]));
        i = i + 1;
    }
    assert(a@ == a@.take(i as int));
    assert(b@ == b@.take(i as int));
    true
}

/// Whether a string is exactly `other`.
pub fn equals(s: &str, other: &str) -> (r: bool)
    ensures
        r == (s@ == other@),
{
    same(characters(s).as_slice(), characters(other).as_slice())
}

/// `s` without the white space at its start.
pub open spec fn trim_start(s: Seq<char>) -> Seq<char>
    decreases s.len(),
{
    if s.len() > 0 && white(s[0]) {
        trim_start(s.skip(1))
    } else {
        s
    }
}

/// `s` without the white space at its end.
pub open spec fn trim_end(s: Seq<char>) -> Seq<char>
    decreases s.len(),
{
    if s.len() > 0 && white(s.last()) {
        trim_end(s.drop_last())
    } else {
        s
    }
}

pub proof fn lemma_trim_end(s: Seq<char>)
    ensures
        trim_end(s).len() <= s.len(),
    decreases s.len(),
{
    if s.len() > 0 && white(s.last()) {
        lemma_trim_end(s.drop_last());
    }
}

/// `s` without the white space around it.
pub open spec fn trim(s: Seq<char>) -> Seq<char> {
    trim_end(trim_start(s))
}

/// How many characters of white space `s` starts with.
fn leading_white(s: &[char]) -> (n: usize)
    ensures
        n <= s@.len(),
        trim_start(s@) == s@.skip(n as int),
        n < s@.len() ==> !white(s@[n as int]),
{
    let mut n: usize = 0;
    assert(s@.skip(0) == s@);
    while n < s.len() && is_white(s[n])
        invariant
            n <= s@.len(),
            trim_start(s@) == trim_start(s@.skip(n as int)),
        decreases s@.len() - n,
    {
        assert(s@.skip(n as int).skip(1) == s@.skip(n + 1));
        n = n + 1;
    }
    n
}

/// Where the white space at the end of `s` starts.
pub fn end_of_text(s: &[char]) -> (n: usize)
    ensures
        n <= s@.len(),
        trim_end(s@) == s@.take(n as int),
{
    let mut n: usize = s.len();
    assert(s@.take(n as int) == s@);
    while n > 0 && is_white(s[n - 1])
        invariant
            n <= s@.len(),
            trim_end(s@) == trim_end(s@.take(n as int)),
        decreases n,
    {
        assert(s@.take(n as int).drop_last() == s@.take(n - 1));
        n = n - 1;
    }
    n
}

/// `s` without the white space around it.
pub fn trimmed(s: &[char]) -> (r: &[char])
    ensures
        r@ == trim(s@),
{
    let from: usize = leading_white(s);
    let rest = slice_subrange(s, from, s.len());
    assert(rest@ == s@.skip(from as int));
    let to: usize = end_of_text(rest);
    let r = slice_subrange(rest, 0, to);
    assert(r@ == rest@.take(to as int));
    r
}

/// Where `c` first stands in `s`, or the length of `s`.
pub open spec fn position(s: Seq<char>, c: char) -> int
    decreases s.len(),
{
    if s.len() == 0 || s[0] == c {
        0
    } else {
        1 + position(s.skip(1), c)
    }
}

pub proof fn lemma_position(s: Seq<char>, c: char)
    ensures
        0 <= position(s, c) <= s.len(),
        position(s, c) < s.len() ==> s[position(s, c)] == c,
        forall|i: int| 0 <= i < position(s, c) ==> s[i] != c,
    decreases s.len(),
{
    if s.len() > 0 && s[0] != c {
        lemma_position(s.skip(1), c);
        let n = position(s.skip(1), c);
        assert forall|i: int| 0 <= i < position(s, c) implies s[i] != c by {
            if i > 0 {
                assert(s.skip(1)[i - 1] == s[i]);
            }
        }
        if n < s.skip(1).len() {
            assert(s.skip(1)[n] == s[n + 1]);
        }
    }
}

pub proof fn lemma_position_at(s: Seq<char>, c: char, n: int)
    requires
        0 <= n < s.len(),
        s[n] == c,
        forall|i: int| 0 <= i < n ==> s[i] != c,
    ensures
        position(s, c) == n,
{
    lemma_position(s, c);
}

pub proof fn lemma_position_absent(s: Seq<char>, c: char)
    requires
        !s.contains(c),
    ensures
        position(s, c) == s.len(),
{
    lemma_position(s, c);
    if position(s, c) < s.len() {
        assert(s.contains(s[position(s, c)]));
    }
}

/// Where `c` first stands in `s`, or the length of `s`.
pub fn find(s: &[char], c: char) -> (n: usize)
    ensures
        n == position(s@, c),
        n <= s@.len(),
        n < s@.len() ==> s@[n as int] == c,
{
    let mut n: usize = 0;
    assert(s@.skip(0) == s@);
    while n < s.len() && s[n] != c
        invariant
            n <= s@.len(),
            position(s@, c) == n + position(s@.skip(n as int), c),
        decreases s@.len() - n,
    {
        assert(s@.skip(n as int).skip(1) == s@.skip(n + 1));
        n = n + 1;
    }
    n
}

/// `s` without one carriage return at its end.
pub open spec fn strip_return(s: Seq<char>) -> Seq<char> {
    if s.len() > 0 && s.last() == '\r' {
        s.drop_last()
    } else {
        s
    }
}

/// The first line of `s`, without the line feed, or carriage return and line feed, that
/// ends it. A carriage return that no line feed follows belongs to the line.
pub open spec fn first_line(s: Seq<char>) -> Seq<char> {
    let n = position(s, '\n');
    if n < s.len() {
        strip_return(s.take(n))
    } else {
        s
    }
}

/// What follows the first line of `s`.
pub open spec fn after_line(s: Seq<char>) -> Seq<char> {
    let n = position(s, '\n');
    if n < s.len() {
        s.skip(n + 1)
    } else {
        Seq::empty()
    }
}

/// The lines of a text.
pub open spec fn lines(s: Seq<char>) -> Seq<Seq<char>>
    decreases s.len(),
    via lines_decreases
{
    if s.len() == 0 {
        Seq::empty()
    } else {
        seq![first_line(s)] + lines(after_line(s))
    }
}

#[via_fn]
proof fn lines_decreases(s: Seq<char>) {
    lemma_position(s, '\n');
}

/// Where the line that starts at `from` ends, and where the next one starts.
pub fn line_at(s: &[char], from: usize) -> (r: (usize, usize))
    requires
        from < s@.len(),
    ensures
        from <= r.0 <= r.1,
        from < r.1 <= s@.len(),
        s@.subrange(from as int, r.0 as int) == first_line(s@.skip(from as int)),
        s@.skip(r.1 as int) == after_line(s@.skip(from as int)),
{
    let rest = slice_subrange(s, from, s.len());
    assert(rest@ == s@.skip(from as int));
    let n: usize = find(rest, '\n');
    if n == rest.len() {
        assert(s@.subrange(from as int, s@.len() as int) == rest@);
        assert(s@.skip(s@.len() as int) == Seq::<char>::empty());
        return (s.len(), s.len());
    }
    assert(s@.skip(from + n + 1) == rest@.skip(n + 1));
    if n > 0 && rest[n - 1] == '\r' {
        assert(s@.subrange(from as int, from + n - 1) == rest@.take(n as int).drop_last());
        (from + n - 1, from + n + 1)
    } else {
        assert(s@.subrange(from as int, from + n) == rest@.take(n as int));
        (from + n, from + n + 1)
    }
}

/// The pieces of `s` between separators; one more than there are separators.
pub open spec fn split(s: Seq<char>, sep: char) -> Seq<Seq<char>>
    decreases s.len(),
    via split_decreases
{
    let n = position(s, sep);
    if n < s.len() {
        seq![s.take(n)] + split(s.skip(n + 1), sep)
    } else {
        seq![s]
    }
}

#[via_fn]
proof fn split_decreases(s: Seq<char>, sep: char) {
    lemma_position(s, sep);
}

/// How many characters that are not white space `s` starts with.
pub open spec fn word_len(s: Seq<char>) -> int
    decreases s.len(),
{
    if s.len() == 0 || white(s[0]) {
        0
    } else {
        1 + word_len(s.skip(1))
    }
}

proof fn lemma_word_len(s: Seq<char>)
    ensures
        0 <= word_len(s) <= s.len(),
    decreases s.len(),
{
    if s.len() > 0 && !white(s[0]) {
        lemma_word_len(s.skip(1));
    }
}

proof fn lemma_trim_start(s: Seq<char>)
    ensures
        trim_start(s).len() <= s.len(),
        trim_start(s).len() > 0 ==> !white(trim_start(s)[0]),
    decreases s.len(),
{
    if s.len() > 0 && white(s[0]) {
        lemma_trim_start(s.skip(1));
    }
}

/// The fields of `s` that white space separates.
pub open spec fn words(s: Seq<char>) -> Seq<Seq<char>>
    decreases s.len(),
    via words_decreases
{
    let t = trim_start(s);
    if t.len() == 0 {
        Seq::empty()
    } else {
        seq![t.take(word_len(t))] + words(t.skip(word_len(t)))
    }
}

#[via_fn]
proof fn words_decreases(s: Seq<char>) {
    lemma_trim_start(s);
    lemma_word_len(trim_start(s));
    lemma_word_len(trim_start(s).skip(1));
}

/// The first field at or after `from`, as where it starts and ends, if there is one.
pub fn word_at(s: &[char], from: usize) -> (r: Option<(usize, usize)>)
    requires
        from <= s@.len(),
    ensures
        match r {
            None => words(s@.skip(from as int)).len() == 0,
            Some((a, b)) => {
                &&& from <= a < b <= s@.len()
                &&& words(s@.skip(from as int)) == seq![s@.subrange(a as int, b as int)] + words(
                    s@.skip(b as int),
                )
            },
        },
{
    let rest = slice_subrange(s, from, s.len());
    assert(rest@ == s@.skip(from as int));
    let skip: usize = leading_white(rest);
    let a: usize = from + skip;
    let ghost t = trim_start(rest@);
    assert(t == s@.skip(a as int));
    if a == s.len() {
        return None;
    }
    let mut b: usize = a;
    assert(s@.skip(b as int) == t);
    while b < s.len() && !is_white(s[b])
        invariant
            a <= b <= s@.len(),
            word_len(t) == b - a + word_len(s@.skip(b as int)),
        decreases s@.len() - b,
    {
        assert(s@.skip(b as int).skip(1) == s@.skip(b + 1));
        b = b + 1;
    }
    assert(t.take(b - a) == s@.subrange(a as int, b as int));
    assert(t.skip(b - a) == s@.skip(b as int));
    proof {
        lemma_word_len(t.skip(1));
    }
    Some((a, b))
}

/// Whether `s` starts with `prefix`.
pub open spec fn starts_with(s: Seq<char>, prefix: Seq<char>) -> bool {
    prefix.len() <= s.len() && s.take(prefix.len() as int) == prefix
}

/// Whether `s` ends with `suffix`.
pub open spec fn ends_with(s: Seq<char>, suffix: Seq<char>) -> bool {
    suffix.len() <= s.len() && s.skip(s.len() - suffix.len()) == suffix
}

/// Whether `s` starts with `prefix`.
pub fn has_prefix(s: &[char], prefix: &[char]) -> (r: bool)
    ensures
        r == starts_with(s@, prefix@),
{
    if prefix.len() > s.len() {
        return false;
    }
    let head = slice_subrange(s, 0, prefix.len());
    assert(head@ == s@.take(prefix@.len() as int));
    same(head, prefix)
}

/// Whether `s` ends with `suffix`.
pub fn has_suffix(s: &[char], suffix: &[char]) -> (r: bool)
    ensures
        r == ends_with(s@, suffix@),
{
    if suffix.len() > s.len() {
        return false;
    }
    let tail = slice_subrange(s, s.len() - suffix.len(), s.len());
    assert(tail@ == s@.skip(s@.len() - suffix@.len()));
    same(tail, suffix)
}

proof fn lemma_trim_end_at(s: Seq<char>) -> (n: int)
    ensures
        0 <= n <= s.len(),
        trim_end(s) == s.take(n),
        n > 0 ==> !white(s[n - 1]),
        forall|i: int| n <= i < s.len() ==> white(#[trigger] s[i]),
    decreases s.len(),
{
    if s.len() > 0 && white(s.last()) {
        let n = lemma_trim_end_at(s.drop_last());
        assert(s.drop_last().take(n) == s.take(n));
        assert forall|i: int| n <= i < s.len() implies white(#[trigger] s[i]) by {
            if i < s.len() - 1 {
                assert(s.drop_last()[i] == s[i]);
            }
        }
        n
    } else {
        assert(s.take(s.len() as int) == s);
        s.len() as int
    }
}

proof fn lemma_trim_start_at(s: Seq<char>) -> (n: int)
    ensures
        0 <= n <= s.len(),
        trim_start(s) == s.skip(n),
        n < s.len() ==> !white(s[n]),
        forall|i: int| 0 <= i < n ==> white(#[trigger] s[i]),
    decreases s.len(),
{
    if s.len() > 0 && white(s[0]) {
        let n = lemma_trim_start_at(s.skip(1));
        assert(s.skip(1).skip(n) == s.skip(n + 1));
        assert forall|i: int| 0 <= i < n + 1 implies white(#[trigger] s[i]) by {
            if i > 0 {
                assert(s.skip(1)[i - 1] == s[i]);
            }
        }
        n + 1
    } else {
        assert(s.skip(0) == s);
        0
    }
}

/// Trimming the end removes white space and nothing else: a text that does not end in white
/// space is what is left of it, however much white space follows.
pub proof fn law_trim_end_removes_white_space_only(s: Seq<char>, after: Seq<char>)
    requires
        s.len() > 0 ==> !white(s.last()),
        forall|i: int| 0 <= i < after.len() ==> white(#[trigger] after[i]),
    ensures
        trim_end(s + after) == s,
{
    let all = s + after;
    let n = lemma_trim_end_at(all);
    if n < s.len() {
        assert(white(all[s.len() - 1]));
    } else if n > s.len() {
        assert(all[n - 1] == after[n - 1 - s.len()]);
    }
    assert(all.take(s.len() as int) == s);
}

/// Trimming removes the white space around a text and nothing else: a text that neither
/// starts nor ends with white space is what is left of it, however much white space stands
/// around it.
pub proof fn law_trim_removes_white_space_only(before: Seq<char>, s: Seq<char>, after: Seq<char>)
    requires
        s.len() > 0 ==> !white(s[0]) && !white(s.last()),
        forall|i: int| 0 <= i < before.len() ==> white(#[trigger] before[i]),
        forall|i: int| 0 <= i < after.len() ==> white(#[trigger] after[i]),
    ensures
        trim(before + s + after) == s,
{
    let all = before + s + after;
    let n = lemma_trim_start_at(all);
    if s.len() > 0 {
        if n < before.len() {
            assert(all[n] == before[n]);
        } else if n > before.len() {
            assert(white(all[before.len() as int]));
        }
        assert(all.skip(n) == s + after);
        law_trim_end_removes_white_space_only(s, after);
    } else {
        if n < all.len() {
            if n < before.len() {
                assert(all[n] == before[n]);
            } else {
                assert(all[n] == after[n - before.len()]);
            }
        }
        assert(trim_start(all) == Seq::<char>::empty());
        assert(trim_end(Seq::<char>::empty()) == Seq::<char>::empty());
    }
}

/// Splitting undoes joining: a piece without separators, a separator and more give that
/// piece and the pieces of the rest; a text without separators is one piece.
pub proof fn law_split_undoes_joining(piece: Seq<char>, sep: char, rest: Seq<char>)
    requires
        !piece.contains(sep),
    ensures
        split(piece, sep) == seq![piece],
        split(piece + seq![sep] + rest, sep) == seq![piece] + split(rest, sep),
{
    lemma_position_absent(piece, sep);
    let all = piece + seq![sep] + rest;
    assert forall|i: int| 0 <= i < piece.len() implies all[i] != sep by {
        assert(piece.contains(piece[i]));
    }
    lemma_position_at(all, sep, piece.len() as int);
    assert(all.take(piece.len() as int) == piece);
    assert(all.skip(piece.len() as int + 1) == rest);
}

/// A text is taken apart at its line feeds: a line that one ends comes first, without a
/// carriage return before the line feed, and the lines of what follows come after it. A text
/// without a line feed is one line, as it stands, unless it is empty.
pub proof fn law_lines_end_at_line_feeds(line: Seq<char>, rest: Seq<char>)
    requires
        !line.contains('\n'),
    ensures
        lines(Seq::empty()) == Seq::<Seq<char>>::empty(),
        line.len() > 0 ==> lines(line) == seq![line],
        !(line.len() > 0 && line.last() == '\r') ==> lines(line + seq!['\n'] + rest) == seq![line]
            + lines(rest),
        lines(line + seq!['\r', '\n'] + rest) == seq![line] + lines(rest),
{
    lemma_position_absent(line, '\n');
    if line.len() > 0 {
        assert(after_line(line) == Seq::<char>::empty());
        assert(lines(after_line(line)) == Seq::<Seq<char>>::empty());
        assert(lines(line) == seq![line]);
    }
    let all = line + seq!['\n'] + rest;
    assert forall|i: int| 0 <= i < line.len() implies all[i] != '\n' by {
        assert(line.contains(line[i]));
    }
    lemma_position_at(all, '\n', line.len() as int);
    assert(all.take(line.len() as int) == line);
    assert(all.skip(line.len() as int + 1) == rest);
    let both = line + seq!['\r', '\n'] + rest;
    assert forall|i: int| 0 <= i < line.len() + 1 implies both[i] != '\n' by {
        if i < line.len() {
            assert(line.contains(line[i]));
        }
    }
    lemma_position_at(both, '\n', line.len() as int + 1);
    assert(both.take(line.len() as int + 1).drop_last() == line);
    assert(both.skip(line.len() as int + 2) == rest);
}

proof fn lemma_word_len_at(s: Seq<char>, n: int)
    requires
        0 <= n <= s.len(),
        forall|i: int| 0 <= i < n ==> !white(#[trigger] s[i]),
        n < s.len() ==> white(s[n]),
    ensures
        word_len(s) == n,
    decreases s.len(),
{
    if n > 0 {
        assert(!white(s[0]));
        let t = s.skip(1);
        assert forall|i: int| 0 <= i < n - 1 implies !white(#[trigger] t[i]) by {
            assert(t[i] == s[i + 1]);
        }
        lemma_word_len_at(t, n - 1);
    }
}

/// The fields of a text are the runs of characters that are not white space, in order: white
/// space alone has none, and a run that white space or the end of the text follows is the
/// first field, wherever it starts.
pub proof fn law_words_are_runs(before: Seq<char>, word: Seq<char>, rest: Seq<char>)
    requires
        forall|i: int| 0 <= i < before.len() ==> white(#[trigger] before[i]),
        forall|i: int| 0 <= i < word.len() ==> !white(#[trigger] word[i]),
        word.len() > 0,
        rest.len() > 0 ==> white(rest[0]),
    ensures
        words(before) == Seq::<Seq<char>>::empty(),
        words(before + word + rest) == seq![word] + words(rest),
{
    let m = lemma_trim_start_at(before);
    assert(trim_start(before).len() == 0);
    let all = before + word + rest;
    let n = lemma_trim_start_at(all);
    if n < before.len() {
        assert(all[n] == before[n]);
    } else if n > before.len() {
        assert(white(all[before.len() as int]));
        assert(all[before.len() as int] == word[0]);
    }
    let t = word + rest;
    assert(all.skip(n) == t);
    assert forall|i: int| 0 <= i < word.len() implies !white(#[trigger] t[i]) by {
        assert(t[i] == word[i]);
    }
    lemma_word_len_at(t, word.len() as int);
    assert(t.take(word.len() as int) == word);
    assert(t.skip(word.len() as int) == rest);
}

/// A text starts with what it is a continuation of, and with nothing else; likewise at its
/// end.
pub proof fn law_prefixes_and_suffixes(s: Seq<char>, part: Seq<char>)
    ensures
        starts_with(part + s, part),
        ends_with(s + part, part),
        starts_with(s, part) ==> s == part + s.skip(part.len() as int),
        ends_with(s, part) ==> s == s.take(s.len() - part.len()) + part,
{
    assert((part + s).take(part.len() as int) == part);
    assert((s + part).skip((s + part).len() - part.len()) == part);
    if starts_with(s, part) {
        assert(s == s.take(part.len() as int) + s.skip(part.len() as int));
    }
    if ends_with(s, part) {
        let n = s.len() - part.len();
        assert(s == s.take(n) + s.skip(n));
    }
}

/// Some lines, each ended by a line feed.
pub open spec fn terminated(ls: Seq<Seq<char>>) -> Seq<char>
    decreases ls.len(),
{
    if ls.len() == 0 {
        Seq::empty()
    } else {
        ls[0] + seq!['\n'] + terminated(ls.skip(1))
    }
}

/// Lines that were ended by line feeds are found again, in order, before those of what
/// follows; at most a carriage return at their end is gone.
pub proof fn law_terminated_lines_read_back(ls: Seq<Seq<char>>, rest: Seq<char>)
    requires
        forall|i: int| 0 <= i < ls.len() ==> !(#[trigger] ls[i]).contains('\n'),
    ensures
        lines(terminated(ls) + rest).len() == ls.len() + lines(rest).len(),
        lines(terminated(ls) + rest).skip(ls.len() as int) == lines(rest),
        forall|i: int|
            0 <= i < ls.len() ==> (#[trigger] lines(terminated(ls) + rest)[i] == ls[i] || ls[i]
                == lines(terminated(ls) + rest)[i] + seq!['\r']),
    decreases ls.len(),
{
    let all = lines(terminated(ls) + rest);
    if ls.len() == 0 {
        assert(terminated(ls) + rest == rest);
        assert(all.skip(0) == all);
    } else {
        let more = ls.skip(1);
        assert forall|i: int| 0 <= i < more.len() implies !(#[trigger] more[i]).contains('\n') by {
            assert(more[i] == ls[i + 1]);
        }
        law_terminated_lines_read_back(more, rest);
        let tail = terminated(more) + rest;
        let line = ls[0];
        assert(!line.contains('\n'));
        assert(terminated(ls) + rest == line + seq!['\n'] + tail);
        let first = strip_return(line);
        if line.len() > 0 && line.last() == '\r' {
            assert(line == first + seq!['\r']);
            assert(!first.contains('\n')) by {
                if first.contains('\n') {
                    let i = choose|i: int| 0 <= i < first.len() && first[i] == '\n';
                    assert(line[i] == '\n');
                }
            }
            assert(line + seq!['\n'] + tail == first + seq!['\r', '\n'] + tail);
        }
        law_lines_end_at_line_feeds(first, tail);
        assert(all == seq![first] + lines(tail));
        assert(all.skip(ls.len() as int) == lines(tail).skip(more.len() as int));
        assert forall|i: int| 0 <= i < ls.len() implies (#[trigger] all[i] == ls[i] || ls[i]
            == all[i] + seq!['\r']) by {
            if i > 0 {
                assert(all[i] == lines(tail)[i - 1]);
                assert(ls[i] == more[i - 1]);
            }
        }
    }
}

} // verus!
