//! Character-sequence utilities: whitespace trimming, prefix tests,
//! searching for a delimiter, and splitting/joining on newlines, each with
//! a specification-level definition and a verified executable counterpart.

use vstd::prelude::*;

verus! {

/// The whitespace characters that trimming removes (ASCII whitespace).
pub open spec fn is_space(c: char) -> bool {
    c == ' ' || c == '\t' || c == '\n' || c == '\r' || c == '\u{c}'
}

/// `s` with its leading whitespace removed.
pub open spec fn chop_front(s: Seq<char>) -> Seq<char>
    decreases s.len(),
{
    if s.len() > 0 && is_space(s[0]) {
        chop_front(s.drop_first())
    } else {
        s
    }
}

/// `s` with its trailing whitespace removed.
pub open spec fn chop_back(s: Seq<char>) -> Seq<char>
    decreases s.len(),
{
    if s.len() > 0 && is_space(s.last()) {
        chop_back(s.drop_last())
    } else {
        s
    }
}

/// `s` with surrounding whitespace removed.
pub open spec fn trim_seq(s: Seq<char>) -> Seq<char> {
    chop_back(chop_front(s))
}

/// `s` carries no surrounding whitespace.
pub open spec fn is_trimmed(s: Seq<char>) -> bool {
    trim_seq(s) == s
}

/// `l` with a single trailing carriage return removed, as a line-oriented
/// reader would yield the line.
pub open spec fn clean_line_of(l: Seq<char>) -> Seq<char> {
    if l.len() > 0 && l.last() == '\r' {
        l.drop_last()
    } else {
        l
    }
}

/// Some position of `s` holds the character `c`.
pub open spec fn has_char(s: Seq<char>, c: char) -> bool {
    exists|i: int| 0 <= i < s.len() && s[i] == c
}

/// `s` begins with the characters of `p`.
pub open spec fn starts_with_seq(s: Seq<char>, p: Seq<char>) -> bool {
    p.len() <= s.len() && s.subrange(0, p.len() as int) == p
}

/// The first position `j >= i` with `s[j] == c`, or `s.len()` if there is none.
pub open spec fn find_from(s: Seq<char>, i: int, c: char) -> int
    decreases s.len() - i,
{
    if i < 0 || i >= s.len() {
        s.len() as int
    } else if s[i] == c {
        i
    } else {
        find_from(s, i + 1, c)
    }
}

pub proof fn lemma_find_from(s: Seq<char>, i: int, c: char)
    requires
        0 <= i <= s.len(),
    ensures
        i <= find_from(s, i, c) <= s.len(),
        find_from(s, i, c) < s.len() ==> s[find_from(s, i, c)] == c,
        forall|j: int| i <= j < find_from(s, i, c) ==> s[j] != c,
    decreases s.len() - i,
{
    if i < s.len() && s[i] != c {
        lemma_find_from(s, i + 1, c);
    }
}

/// `find_from` lands exactly on the first occurrence at or after `i`.
pub proof fn lemma_find_hits(s: Seq<char>, i: int, c: char, k: int)
    requires
        0 <= i <= k < s.len(),
        s[k] == c,
        forall|j: int| i <= j < k ==> s[j] != c,
    ensures
        find_from(s, i, c) == k,
{
    lemma_find_from(s, i, c);
    let f = find_from(s, i, c);
    if f < k {
        assert(s[f] != c);
    }
    if f > k {
        assert(s[k] != c);
    }
}

/// Without an occurrence at or after `i`, `find_from` lands on the length.
pub proof fn lemma_find_misses(s: Seq<char>, i: int, c: char)
    requires
        0 <= i <= s.len(),
        forall|j: int| i <= j < s.len() ==> s[j] != c,
    ensures
        find_from(s, i, c) == s.len(),
{
    lemma_find_from(s, i, c);
    let f = find_from(s, i, c);
    if f < s.len() {
        assert(s[f] != c);
    }
}

pub proof fn lemma_chop_front_len(s: Seq<char>)
    ensures
        chop_front(s).len() <= s.len(),
        chop_front(s).len() == s.len() ==> chop_front(s) == s,
    decreases s.len(),
{
    if s.len() > 0 && is_space(s[0]) {
        lemma_chop_front_len(s.drop_first());
    }
}

pub proof fn lemma_chop_back_len(s: Seq<char>)
    ensures
        chop_back(s).len() <= s.len(),
        chop_back(s).len() == s.len() ==> chop_back(s) == s,
    decreases s.len(),
{
    if s.len() > 0 && is_space(s.last()) {
        lemma_chop_back_len(s.drop_last());
    }
}

/// A trimmed sequence is left fixed by each of the one-sided chops.
pub proof fn lemma_trimmed_fixed(s: Seq<char>)
    requires
        is_trimmed(s),
    ensures
        chop_front(s) == s,
        chop_back(s) == s,
{
    lemma_chop_front_len(s);
    lemma_chop_back_len(chop_front(s));
}

/// A non-empty trimmed sequence starts and ends with a non-space character.
pub proof fn lemma_trimmed_ends(s: Seq<char>)
    requires
        is_trimmed(s),
        s.len() > 0,
    ensures
        !is_space(s[0]),
        !is_space(s.last()),
{
    lemma_trimmed_fixed(s);
    lemma_chop_front_len(s.drop_first());
    lemma_chop_back_len(s.drop_last());
}

/// Trimming removes a single leading space before a trimmed remainder.
pub proof fn lemma_trim_space_then(r: Seq<char>)
    requires
        is_trimmed(r),
    ensures
        trim_seq(seq![' '] + r) == r,
{
    let s = seq![' '] + r;
    assert(s[0] == ' ');
    assert(s.drop_first() =~= r);
    lemma_trimmed_fixed(r);
}

/// The lines of `s`, split at each newline; always at least one line, and
/// a trailing newline yields a final empty line.
pub open spec fn split_lines(s: Seq<char>) -> Seq<Seq<char>>
    decreases s.len(),
{
    if s.len() == 0 {
        seq![Seq::<char>::empty()]
    } else if s[0] == '\n' {
        seq![Seq::<char>::empty()] + split_lines(s.drop_first())
    } else {
        let rest = split_lines(s.drop_first());
        seq![seq![s[0]] + rest[0]] + rest.drop_first()
    }
}

/// The lines of `ls` joined by single newlines, with no trailing newline.
pub open spec fn join_lines(ls: Seq<Seq<char>>) -> Seq<char>
    decreases ls.len(),
{
    if ls.len() == 0 {
        Seq::<char>::empty()
    } else if ls.len() == 1 {
        ls[0]
    } else {
        ls[0] + seq!['\n'] + join_lines(ls.drop_first())
    }
}

/// The lines of `ls` each terminated by a newline.
pub open spec fn unlines(ls: Seq<Seq<char>>) -> Seq<char>
    decreases ls.len(),
{
    if ls.len() == 0 {
        Seq::<char>::empty()
    } else {
        ls[0] + seq!['\n'] + unlines(ls.drop_first())
    }
}

pub proof fn lemma_split_nonempty(s: Seq<char>)
    ensures
        split_lines(s).len() >= 1,
    decreases s.len(),
{
    if s.len() > 0 {
        lemma_split_nonempty(s.drop_first());
    }
}

/// A sequence without newlines splits into itself alone.
pub proof fn lemma_split_no_newline(s: Seq<char>)
    requires
        !has_char(s, '\n'),
    ensures
        split_lines(s) == seq![s],
    decreases s.len(),
{
    if s.len() == 0 {
        assert(split_lines(s) =~~= seq![s]);
    } else {
        assert(s[0] != '\n');
        assert(!has_char(s.drop_first(), '\n')) by {
            if has_char(s.drop_first(), '\n') {
                let i = choose|i: int|
                    0 <= i < s.drop_first().len() && s.drop_first()[i] == '\n';
                assert(s[i + 1] == '\n');
            }
        }
        lemma_split_no_newline(s.drop_first());
        let rest = split_lines(s.drop_first());
        assert(rest[0] == s.drop_first());
        assert(seq![s[0]] + rest[0] =~= s);
        assert(split_lines(s) =~~= seq![s]);
    }
}

/// Splitting at a newline that follows a newline-free prefix peels the
/// prefix off as the first line.
pub proof fn lemma_split_concat(a: Seq<char>, b: Seq<char>)
    requires
        !has_char(a, '\n'),
    ensures
        split_lines(a + seq!['\n'] + b) == seq![a] + split_lines(b),
    decreases a.len(),
{
    let s = a + seq!['\n'] + b;
    if a.len() == 0 {
        assert(s[0] == '\n');
        assert(s.drop_first() =~= b);
        assert(split_lines(s) =~~= seq![a] + split_lines(b));
    } else {
        assert(s[0] == a[0]);
        assert(a[0] != '\n');
        assert(!has_char(a.drop_first(), '\n')) by {
            if has_char(a.drop_first(), '\n') {
                let i = choose|i: int|
                    0 <= i < a.drop_first().len() && a.drop_first()[i] == '\n';
                assert(a[i + 1] == '\n');
            }
        }
        assert(s.drop_first() =~= a.drop_first() + seq!['\n'] + b);
        lemma_split_concat(a.drop_first(), b);
        let rest = split_lines(s.drop_first());
        assert(rest == seq![a.drop_first()] + split_lines(b));
        assert(rest[0] == a.drop_first());
        assert(seq![s[0]] + rest[0] =~= a);
        assert(rest.drop_first() =~= split_lines(b));
        assert(split_lines(s) =~~= seq![a] + split_lines(b));
    }
}

/// Joining undoes splitting, for every sequence.
pub proof fn lemma_join_split(s: Seq<char>)
    ensures
        join_lines(split_lines(s)) == s,
    decreases s.len(),
{
    if s.len() == 0 {
    } else if s[0] == '\n' {
        lemma_join_split(s.drop_first());
        lemma_split_nonempty(s.drop_first());
        let ls = seq![Seq::<char>::empty()] + split_lines(s.drop_first());
        assert(ls.drop_first() =~= split_lines(s.drop_first()));
        assert(join_lines(ls) =~= s);
    } else {
        lemma_join_split(s.drop_first());
        lemma_split_nonempty(s.drop_first());
        let rest = split_lines(s.drop_first());
        let ls = seq![seq![s[0]] + rest[0]] + rest.drop_first();
        if rest.len() == 1 {
            assert(join_lines(rest) == rest[0]);
            assert(ls.len() == 1);
            assert(join_lines(ls) == seq![s[0]] + rest[0]);
            assert(join_lines(ls) =~= s);
        } else {
            assert(ls.len() >= 2);
            assert(ls.drop_first() =~= rest.drop_first());
            assert(join_lines(rest) == rest[0] + seq!['\n'] + join_lines(rest.drop_first()));
            assert(join_lines(ls) == (seq![s[0]] + rest[0]) + seq!['\n'] + join_lines(
                rest.drop_first(),
            ));
            assert(join_lines(ls) =~= seq![s[0]] + join_lines(rest));
            assert(seq![s[0]] + join_lines(rest) =~= s);
        }
    }
}

/// `unlines` distributes over concatenation of line lists.
pub proof fn lemma_unlines_app(a: Seq<Seq<char>>, b: Seq<Seq<char>>)
    ensures
        unlines(a + b) == unlines(a) + unlines(b),
    decreases a.len(),
{
    if a.len() == 0 {
        assert(a + b =~= b);
        assert(unlines(a) + unlines(b) =~= unlines(b));
    } else {
        assert((a + b).drop_first() =~= a.drop_first() + b);
        lemma_unlines_app(a.drop_first(), b);
        assert(unlines(a + b) =~= unlines(a) + unlines(b));
    }
}

/// Splitting the newline-terminated rendering of newline-free lines gives
/// back those lines, plus one final empty line.
pub proof fn lemma_split_unlines(ls: Seq<Seq<char>>)
    requires
        forall|i: int| 0 <= i < ls.len() ==> !has_char(#[trigger] ls[i], '\n'),
    ensures
        split_lines(unlines(ls)) == ls + seq![Seq::<char>::empty()],
    decreases ls.len(),
{
    if ls.len() == 0 {
        assert(split_lines(unlines(ls)) =~~= ls + seq![Seq::<char>::empty()]);
    } else {
        lemma_split_unlines(ls.drop_first());
        lemma_split_concat(ls[0], unlines(ls.drop_first()));
        assert(seq![ls[0]] + (ls.drop_first() + seq![Seq::<char>::empty()]) =~= ls + seq![
            Seq::<char>::empty(),
        ]);
    }
}


/// A character occurs in a concatenation where it occurs in either part.
pub proof fn lemma_has_char_app(a: Seq<char>, b: Seq<char>, c: char)
    ensures
        has_char(a + b, c) <==> (has_char(a, c) || has_char(b, c)),
{
    if has_char(a + b, c) {
        let i = choose|i: int| 0 <= i < (a + b).len() && (a + b)[i] == c;
        if i < a.len() {
            assert(a[i] == c);
        } else {
            assert(b[i - a.len()] == c);
        }
    }
    if has_char(a, c) {
        let i = choose|i: int| 0 <= i < a.len() && a[i] == c;
        assert((a + b)[i] == c);
    }
    if has_char(b, c) {
        let i = choose|i: int| 0 <= i < b.len() && b[i] == c;
        assert((a + b)[a.len() + i] == c);
    }
}

/// No line produced by splitting holds a newline.
pub proof fn lemma_split_lines_free(s: Seq<char>)
    ensures
        forall|i: int|
            0 <= i < split_lines(s).len() ==> !has_char(#[trigger] split_lines(s)[i], '\n'),
    decreases s.len(),
{
    lemma_split_nonempty(s);
    if s.len() == 0 {
        assert forall|i: int|
            0 <= i < split_lines(s).len() implies !has_char(split_lines(s)[i], '\n') by {
            if has_char(split_lines(s)[i], '\n') {
                let k = choose|k: int|
                    0 <= k < split_lines(s)[i].len() && split_lines(s)[i][k] == '\n';
            }
        }
    } else if s[0] == '\n' {
        lemma_split_lines_free(s.drop_first());
        assert forall|i: int|
            0 <= i < split_lines(s).len() implies !has_char(split_lines(s)[i], '\n') by {
            if i == 0 {
                if has_char(split_lines(s)[0], '\n') {
                    let k = choose|k: int|
                        0 <= k < split_lines(s)[0].len() && split_lines(s)[0][k] == '\n';
                }
            } else {
                assert(split_lines(s)[i] == split_lines(s.drop_first())[i - 1]);
            }
        }
    } else {
        lemma_split_lines_free(s.drop_first());
        let rest = split_lines(s.drop_first());
        assert forall|i: int|
            0 <= i < split_lines(s).len() implies !has_char(split_lines(s)[i], '\n') by {
            if i == 0 {
                assert(split_lines(s)[0] == seq![s[0]] + rest[0]);
                lemma_has_char_app(seq![s[0]], rest[0], '\n');
                assert(!has_char(seq![s[0]], '\n')) by {
                    if has_char(seq![s[0]], '\n') {
                        let k = choose|k: int| 0 <= k < 1 && seq![s[0]][k] == '\n';
                    }
                }
            } else {
                assert(split_lines(s)[i] == rest.drop_first()[i - 1]);
                assert(rest.drop_first()[i - 1] == rest[i]);
            }
        }
    }
}

/// With at least one line, the newline-terminated form is the joined form
/// plus one final newline.
pub proof fn lemma_unlines_join(ls: Seq<Seq<char>>)
    requires
        ls.len() > 0,
    ensures
        unlines(ls) == join_lines(ls) + seq!['\n'],
    decreases ls.len(),
{
    if ls.len() == 1 {
        assert(ls.drop_first().len() == 0);
        assert(unlines(ls.drop_first()) =~= Seq::<char>::empty());
        assert(unlines(ls) =~= join_lines(ls) + seq!['\n']);
    } else {
        lemma_unlines_join(ls.drop_first());
        assert(unlines(ls) =~= join_lines(ls) + seq!['\n']);
    }
}

/// Executable test for the whitespace characters of `is_space`.
pub fn char_is_space(c: char) -> (r: bool)
    ensures
        r == is_space(c),
{
    c == ' ' || c == '\t' || c == '\n' || c == '\r' || c == '\u{c}'
}

/// Character-for-character equality of two string slices.
pub fn str_eq(a: &str, b: &str) -> (r: bool)
    ensures
        r == (a@ == b@),
{
    let na: usize = a.unicode_len();
    let nb: usize = b.unicode_len();
    if na != nb {
        assert(a@ != b@) by {
            assert(a@.len() != b@.len());
        }
        return false;
    }
    let mut i: usize = 0;
    while i < na
        invariant
            0 <= i <= na,
            na == a@.len(),
            na == b@.len(),
            forall|j: int| 0 <= j < i ==> a@[j] == b@[j],
        decreases na - i,
    {
        if a.get_char(i) != b.get_char(i) {
            return false;
        }
        i = i + 1;
    }
    assert(a@ =~= b@);
    true
}

/// Whether `s` begins with the characters of `p`.
pub fn has_prefix(s: &str, p: &str) -> (r: bool)
    ensures
        r == starts_with_seq(s@, p@),
{
    let n: usize = s.unicode_len();
    let np: usize = p.unicode_len();
    if np > n {
        return false;
    }
    let mut i: usize = 0;
    while i < np
        invariant
            0 <= i <= np,
            np <= n,
            n == s@.len(),
            np == p@.len(),
            forall|j: int| 0 <= j < i ==> s@[j] == p@[j],
        decreases np - i,
    {
        if s.get_char(i) != p.get_char(i) {
            assert(!starts_with_seq(s@, p@)) by {
                assert(s@.subrange(0, p@.len() as int)[i as int] != p@[i as int]);
            }
            return false;
        }
        i = i + 1;
    }
    assert(s@.subrange(0, p@.len() as int) =~= p@);
    true
}

/// The first position at or after `from` where `s` holds `c`, or the length
/// of `s` if there is none.
pub fn find_char_from(s: &str, from: usize, c: char) -> (r: usize)
    requires
        from <= s@.len(),
    ensures
        r == find_from(s@, from as int, c),
{
    let n: usize = s.unicode_len();
    let mut i: usize = from;
    while i < n
        invariant
            from <= i <= n,
            n == s@.len(),
            find_from(s@, from as int, c) == find_from(s@, i as int, c),
        decreases n - i,
    {
        if s.get_char(i) == c {
            return i;
        }
        i = i + 1;
    }
    i
}

/// A copy of `s` with surrounding whitespace removed.
pub fn trim_str(s: &str) -> (r: String)
    ensures
        r@ == trim_seq(s@),
{
    let n: usize = s.unicode_len();
    let mut lo: usize = 0;
    assert(s@.skip(0) =~= s@);
    while lo < n && char_is_space(s.get_char(lo))
        invariant
            0 <= lo <= n,
            n == s@.len(),
            chop_front(s@) == chop_front(s@.skip(lo as int)),
        decreases n - lo,
    {
        assert(s@.skip(lo as int).drop_first() =~= s@.skip(lo as int + 1));
        lo = lo + 1;
    }
    assert(chop_front(s@) == s@.skip(lo as int)) by {
        if lo < n {
            assert(s@.skip(lo as int)[0] == s@[lo as int]);
        }
    }
    let mut hi: usize = n;
    while hi > lo && char_is_space(s.get_char(hi - 1))
        invariant
            lo <= hi <= n,
            n == s@.len(),
            chop_front(s@) == s@.skip(lo as int),
            chop_back(s@.skip(lo as int)) == chop_back(s@.subrange(lo as int, hi as int)),
        decreases hi,
    {
        assert(s@.subrange(lo as int, hi as int).drop_last() =~= s@.subrange(
            lo as int,
            hi as int - 1,
        ));
        assert(s@.subrange(lo as int, hi as int).last() == s@[hi as int - 1]);
        hi = hi - 1;
    }
    assert(chop_back(s@.subrange(lo as int, hi as int)) == s@.subrange(lo as int, hi as int)) by {
        if hi > lo {
            assert(s@.subrange(lo as int, hi as int).last() == s@[hi as int - 1]);
        }
    }
    let piece: &str = s.substring_char(lo, hi);
    assert(s@.skip(lo as int) =~= s@.subrange(lo as int, n as int));
    String::from_str(piece)
}

} // verus!
