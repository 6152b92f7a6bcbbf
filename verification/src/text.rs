//! Character-sequence utilities: locating a separator, comparing
//! strings, and taking the final component of a path.
//!
//! The registry's persisted form is line- and colon-structured text, so
//! everything else in the crate leans on "the first occurrence of a
//! character" and "the last occurrence of a character" as specified
//! here.

use vstd::prelude::*;
use vstd::string::StrSliceExecFns;

verus! {

/// The least index of `c` in `s`, or `s.len()` when `c` does not occur.
pub open spec fn first_occurrence(s: Seq<char>, c: char) -> int
    decreases s.len(),
{
    if s.len() == 0 {
        0
    } else if s[0] == c {
        0
    } else {
        1 + first_occurrence(s.drop_first(), c)
    }
}

/// What `first_occurrence` returns: an index in `0 ..= s.len()`, holding
/// `c` when it is below `s.len()`, with nothing but other characters
/// before it; it is `s.len()` exactly when `c` does not occur at all.
pub proof fn lemma_first_occurrence(s: Seq<char>, c: char)
    ensures
        0 <= first_occurrence(s, c) <= s.len(),
        first_occurrence(s, c) < s.len() ==> s[first_occurrence(s, c)] == c,
        forall|j: int| 0 <= j < first_occurrence(s, c) ==> s[j] != c,
        first_occurrence(s, c) == s.len() <==> (forall|j: int|
            0 <= j < s.len() ==> s[j] != c),
    decreases s.len(),
{
    if s.len() == 0 {
    } else if s[0] == c {
    } else {
        lemma_first_occurrence(s.drop_first(), c);
        assert(forall|j: int| 1 <= j < s.len() ==> s[j] == s.drop_first()[j - 1]);
    }
}

/// An index with `c` at it and no `c` before it is the first occurrence;
/// so is `s.len()` when no index holds `c`.
pub proof fn lemma_first_occurrence_unique(s: Seq<char>, c: char, i: int)
    requires
        0 <= i <= s.len(),
        i < s.len() ==> s[i] == c,
        forall|j: int| 0 <= j < i ==> s[j] != c,
        i == s.len() ==> (forall|j: int| 0 <= j < s.len() ==> s[j] != c),
    ensures
        first_occurrence(s, c) == i,
{
    lemma_first_occurrence(s, c);
}

/// The greatest index of `c` in `s`, or `-1` when `c` does not occur.
pub open spec fn last_occurrence(s: Seq<char>, c: char) -> int
    decreases s.len(),
{
    if s.len() == 0 {
        -1
    } else if s.last() == c {
        s.len() - 1
    } else {
        last_occurrence(s.drop_last(), c)
    }
}

/// What `last_occurrence` returns: `-1` or an index holding `c`, with
/// nothing but other characters after it.
pub proof fn lemma_last_occurrence(s: Seq<char>, c: char)
    ensures
        -1 <= last_occurrence(s, c) < s.len(),
        last_occurrence(s, c) >= 0 ==> s[last_occurrence(s, c)] == c,
        forall|j: int| last_occurrence(s, c) < j < s.len() ==> s[j] != c,
    decreases s.len(),
{
    if s.len() == 0 {
    } else if s.last() == c {
    } else {
        lemma_last_occurrence(s.drop_last(), c);
        assert(forall|j: int| 0 <= j < s.len() - 1 ==> s[j] == s.drop_last()[j]);
    }
}

/// The lines of `s`: the maximal `'\n'`-free runs, the way a buffered
/// line reader yields them — a final run without a terminator is still
/// a line, and a trailing terminator adds no empty line.
pub open spec fn split_lines(s: Seq<char>) -> Seq<Seq<char>>
    decreases s.len(),
{
    if s.len() == 0 {
        Seq::empty()
    } else if s[0] == '\n' {
        seq![Seq::<char>::empty()] + split_lines(s.drop_first())
    } else {
        let rest = split_lines(s.drop_first());
        if rest.len() == 0 {
            seq![seq![s[0]]]
        } else {
            seq![seq![s[0]] + rest[0]] + rest.drop_first()
        }
    }
}

/// A terminated first line splits off whole: the text `line` + `'\n'` +
/// `rest` has `line` as its first line and the lines of `rest` after
/// it, provided `line` itself contains no terminator.
pub proof fn lemma_split_lines_head(line: Seq<char>, rest: Seq<char>)
    requires
        forall|j: int| 0 <= j < line.len() ==> line[j] != '\n',
    ensures
        split_lines(line + seq!['\n'] + rest) == seq![line] + split_lines(rest),
    decreases line.len(),
{
    let s = line + seq!['\n'] + rest;
    if line.len() == 0 {
        assert(s[0] == '\n');
        assert(s.drop_first() =~= rest);
        assert(seq![line] =~~= seq![Seq::<char>::empty()]);
        assert(split_lines(s) =~~= seq![line] + split_lines(rest));
    } else {
        assert(s[0] == line[0]);
        assert(s[0] != '\n');
        assert(s.drop_first() =~= line.drop_first() + seq!['\n'] + rest);
        lemma_split_lines_head(line.drop_first(), rest);
        let r = split_lines(s.drop_first());
        assert(r[0] == line.drop_first());
        assert(seq![s[0]] + line.drop_first() =~= line);
        assert(r.drop_first() =~~= split_lines(rest));
        assert(split_lines(s) =~~= seq![line] + split_lines(rest));
    }
}

/// An unterminated text without a terminator is one line: itself.
pub proof fn lemma_split_lines_single(line: Seq<char>)
    requires
        line.len() > 0,
        forall|j: int| 0 <= j < line.len() ==> line[j] != '\n',
    ensures
        split_lines(line) == seq![line],
    decreases line.len(),
{
    if line.len() == 1 {
        assert(line.drop_first() =~= Seq::<char>::empty());
        assert(split_lines(Seq::<char>::empty()) =~~= Seq::<Seq<char>>::empty());
        assert(seq![seq![line[0]]] =~~= seq![line]);
    } else {
        assert(forall|j: int| 0 <= j < line.drop_first().len() ==> line.drop_first()[j] != '\n');
        lemma_split_lines_single(line.drop_first());
        let rest = split_lines(line.drop_first());
        assert(rest[0] == line.drop_first());
        assert(rest.drop_first() =~~= Seq::<Seq<char>>::empty());
        assert(seq![line[0]] + line.drop_first() =~= line);
        assert(split_lines(line) =~~= seq![line]);
    }
}

/// `s` ends with `suf`.
pub open spec fn has_suffix(s: Seq<char>, suf: Seq<char>) -> bool {
    s.len() >= suf.len() && s.subrange(s.len() - suf.len(), s.len() as int) == suf
}

/// Whether two string slices hold the same characters.
pub fn str_eq(a: &str, b: &str) -> (r: bool)
    ensures
        r == (a@ == b@),
{
    let an = a.unicode_len();
    let bn = b.unicode_len();
    if an != bn {
        return false;
    }
    let mut i: usize = 0;
    while i < an
        invariant
            i <= an,
            an == a@.len(),
            bn == b@.len(),
            an == bn,
            forall|j: int| 0 <= j < i ==> a@[j] == b@[j],
        decreases an - i,
    {
        if a.get_char(i) != b.get_char(i) {
            return false;
        }
        i += 1;
    }
    proof {
        assert(a@ =~= b@);
    }
    true
}

/// The first index of `c` in `s` at or after `from`, or the character
/// length of `s` when there is none.
pub fn find_char_from(s: &str, from: usize, c: char) -> (r: usize)
    requires
        from <= s@.len(),
    ensures
        from <= r <= s@.len(),
        r < s@.len() ==> s@[r as int] == c,
        forall|j: int| from <= j < r ==> s@[j] != c,
{
    let n = s.unicode_len();
    let mut i = from;
    while i < n
        invariant
            from <= i <= n,
            n == s@.len(),
            forall|j: int| from <= j < i ==> s@[j] != c,
        decreases n - i,
    {
        if s.get_char(i) == c {
            return i;
        }
        i += 1;
    }
    i
}

/// The final component of a path string: everything after the last `/`,
/// or the whole string when it has none. A directory's base name is the
/// default warp-point name.
pub fn base_name(path: &str) -> (r: String)
    ensures
        r@ == path@.subrange(last_occurrence(path@, '/') + 1, path@.len() as int),
{
    let n = path.unicode_len();
    let mut i = n;
    while i > 0
        invariant
            i <= n,
            n == path@.len(),
            forall|j: int| i <= j < n ==> path@[j] != '/',
        decreases i,
    {
        if path.get_char(i - 1) == '/' {
            proof {
                lemma_last_occurrence(path@, '/');
                assert(last_occurrence(path@, '/') == i - 1) by {
                    let l = last_occurrence(path@, '/');
                    if l < i - 1 {
                        assert(path@[i - 1] != '/');
                    } else if l > i - 1 {
                        assert(path@[l] != '/');
                    }
                }
            }
            return path.substring_char(i, n).to_owned();
        }
        i -= 1;
    }
    proof {
        lemma_last_occurrence(path@, '/');
        assert(last_occurrence(path@, '/') == -1) by {
            let l = last_occurrence(path@, '/');
            if l >= 0 {
                assert(path@[l] != '/');
            }
        }
        assert(path@.subrange(0, path@.len() as int) =~= path@);
    }
    path.to_owned()
}

} // verus!
