//! Character-sequence utilities: substring search, prefix/suffix tests, and
//! line-oriented splitting and joining of documents.

use vstd::prelude::*;

verus! {

/// `p` occurs in `s` starting exactly at index `i`.
pub open spec fn match_at(s: Seq<char>, p: Seq<char>, i: int) -> bool {
    0 <= i && i + p.len() <= s.len() && s.subrange(i, i + p.len() as int) == p
}

/// `p` occurs somewhere in `s`.
pub open spec fn has_sub(s: Seq<char>, p: Seq<char>) -> bool {
    exists|i: int| match_at(s, p, i)
}

/// `c` occurs somewhere in `s`.
pub open spec fn has_char(s: Seq<char>, c: char) -> bool {
    exists|i: int| 0 <= i < s.len() && s[i] == c
}

/// `s` begins with `p`.
pub open spec fn starts_with(s: Seq<char>, p: Seq<char>) -> bool {
    p.len() <= s.len() && s.subrange(0, p.len() as int) == p
}

/// `s` ends with `p`.
pub open spec fn ends_with(s: Seq<char>, p: Seq<char>) -> bool {
    p.len() <= s.len() && s.subrange(s.len() - p.len(), s.len() as int) == p
}

/// Index of the first occurrence of `p` in `s` at or after `i`, if any.
pub open spec fn find_sub_from(s: Seq<char>, p: Seq<char>, i: int) -> Option<int>
    decreases s.len() - i when 0 <= i
{
    if i + p.len() > s.len() {
        None
    } else if p.len() == 0 {
        Some(i)
    } else if s.subrange(i, i + p.len() as int) == p {
        Some(i)
    } else {
        find_sub_from(s, p, i + 1)
    }
}

/// Index of the first occurrence of `p` in `s`, if any.
pub open spec fn find_sub(s: Seq<char>, p: Seq<char>) -> Option<int> {
    find_sub_from(s, p, 0)
}

/// Index of the first occurrence of `c` in `s` at or after `i`, if any.
pub open spec fn find_char_from(s: Seq<char>, c: char, i: int) -> Option<int>
    decreases s.len() - i when 0 <= i
{
    if i >= s.len() {
        None
    } else if s[i] == c {
        Some(i)
    } else {
        find_char_from(s, c, i + 1)
    }
}

/// Index of the first occurrence of `c` in `s`, if any.
pub open spec fn find_char(s: Seq<char>, c: char) -> Option<int> {
    find_char_from(s, c, 0)
}

/// What `find_sub_from` returns: the first match at or after `i`, or a
/// guarantee that no match exists there.
pub proof fn lemma_find_sub_from_correct(s: Seq<char>, p: Seq<char>, i: int)
    requires
        0 <= i,
    ensures
        match find_sub_from(s, p, i) {
            Some(j) => i <= j && match_at(s, p, j) && forall|k: int|
                i <= k < j ==> !match_at(s, p, k),
            None => forall|k: int| i <= k ==> !match_at(s, p, k),
        },
    decreases s.len() - i,
{
    if i + p.len() > s.len() {
        assert forall|k: int| i <= k implies !match_at(s, p, k) by {
            assert(k + p.len() > s.len());
        }
    } else if p.len() == 0 {
        assert(s.subrange(i, i + p.len() as int) =~= p);
        assert(match_at(s, p, i));
    } else if s.subrange(i, i + p.len() as int) == p {
    } else {
        assert(!match_at(s, p, i));
        lemma_find_sub_from_correct(s, p, i + 1);
    }
}

/// If `j` is the first match of `p` at or after `i`, the search finds it.
pub proof fn lemma_find_sub_from_exact(s: Seq<char>, p: Seq<char>, i: int, j: int)
    requires
        0 <= i <= j,
        match_at(s, p, j),
        forall|k: int| i <= k < j ==> !match_at(s, p, k),
    ensures
        find_sub_from(s, p, i) == Some(j),
{
    lemma_find_sub_from_correct(s, p, i);
    match find_sub_from(s, p, i) {
        Some(j2) => {
            if j2 < j {
                assert(!match_at(s, p, j2));
            } else if j < j2 {
                assert(!match_at(s, p, j));
            }
        },
        None => {
            assert(!match_at(s, p, j));
        },
    }
}

/// What `find_char_from` returns: the first occurrence at or after `i`, or a
/// guarantee that none exists there.
pub proof fn lemma_find_char_from_correct(s: Seq<char>, c: char, i: int)
    requires
        0 <= i,
    ensures
        match find_char_from(s, c, i) {
            Some(j) => i <= j < s.len() && s[j] == c && forall|k: int|
                i <= k < j ==> s[k] != c,
            None => forall|k: int| i <= k < s.len() ==> s[k] != c,
        },
    decreases s.len() - i,
{
    if i >= s.len() {
    } else if s[i] == c {
    } else {
        lemma_find_char_from_correct(s, c, i + 1);
    }
}

/// Searching for `c` from offset `d` is searching in the suffix `s.skip(d)`.
pub proof fn lemma_find_char_skip(s: Seq<char>, c: char, d: int)
    requires
        0 <= d <= s.len(),
    ensures
        match find_char_from(s, c, d) {
            Some(j) => find_char(s.skip(d), c) == Some(j - d),
            None => find_char(s.skip(d), c) is None,
        },
{
    lemma_find_char_from_correct(s, c, d);
    let suf = s.skip(d);
    match find_char_from(s, c, d) {
        Some(j) => {
            assert(suf[j - d] == c);
            assert forall|k: int| 0 <= k < j - d implies suf[k] != c by {
                assert(suf[k] == s[d + k]);
            }
            lemma_find_char_from_exact(suf, c, 0, j - d);
        },
        None => {
            lemma_find_char_from_correct(suf, c, 0);
            if find_char(suf, c) is Some {
                let j = find_char(suf, c)->0;
                assert(s[d + j] == c);
            }
        },
    }
}

/// The lines of `s`: the segments between `'\n'` separators, in order.
/// Every document has at least one line; a trailing `'\n'` yields a final
/// empty line, so joining the lines back restores the document exactly.
pub open spec fn lines_of(s: Seq<char>) -> Seq<Seq<char>>
    decreases s.len(),
{
    if s.len() == 0 {
        seq![Seq::<char>::empty()]
    } else if s[0] == '\n' {
        seq![Seq::<char>::empty()] + lines_of(s.skip(1))
    } else {
        let rest = lines_of(s.skip(1));
        seq![seq![s[0]] + rest.first()] + rest.drop_first()
    }
}

/// The document with the given lines, separated by `'\n'`.
pub open spec fn join_lines(ls: Seq<Seq<char>>) -> Seq<char>
    decreases ls.len(),
{
    if ls.len() == 0 {
        Seq::<char>::empty()
    } else if ls.len() == 1 {
        ls[0]
    } else {
        ls[0] + seq!['\n'] + join_lines(ls.drop_first())
    }
}

/// A document always splits into at least one line.
pub proof fn lemma_lines_of_nonempty(s: Seq<char>)
    ensures
        lines_of(s).len() >= 1,
    decreases s.len(),
{
    if s.len() == 0 {
    } else {
        lemma_lines_of_nonempty(s.skip(1));
    }
}

/// No line produced by `lines_of` contains a separator.
pub proof fn lemma_lines_of_no_newline(s: Seq<char>)
    ensures
        forall|j: int| 0 <= j < lines_of(s).len() ==> !has_char(#[trigger] lines_of(s)[j], '\n'),
    decreases s.len(),
{
    if s.len() == 0 {
        assert(!has_char(Seq::<char>::empty(), '\n'));
    } else if s[0] == '\n' {
        lemma_lines_of_no_newline(s.skip(1));
        assert(!has_char(Seq::<char>::empty(), '\n'));
        assert forall|j: int| 0 <= j < lines_of(s).len() implies !has_char(
            #[trigger] lines_of(s)[j],
            '\n',
        ) by {
            if j > 0 {
                assert(lines_of(s)[j] == lines_of(s.skip(1))[j - 1]);
            }
        }
    } else {
        lemma_lines_of_no_newline(s.skip(1));
        lemma_lines_of_nonempty(s.skip(1));
        let rest = lines_of(s.skip(1));
        assert forall|j: int| 0 <= j < lines_of(s).len() implies !has_char(
            #[trigger] lines_of(s)[j],
            '\n',
        ) by {
            if j == 0 {
                assert(!has_char(rest.first(), '\n'));
                assert(lines_of(s)[0] == seq![s[0]] + rest.first());
                assert forall|k: int| 0 <= k < (seq![s[0]] + rest.first()).len() implies (
                seq![s[0]] + rest.first())[k] != '\n' by {
                    if k == 0 {
                    } else {
                        assert((seq![s[0]] + rest.first())[k] == rest.first()[k - 1]);
                        assert(!(exists|m: int|
                            0 <= m < rest.first().len() && rest.first()[m] == '\n'));
                    }
                }
            } else {
                assert(lines_of(s)[j] == rest.drop_first()[j - 1]);
                assert(rest.drop_first()[j - 1] == rest[j]);
            }
        }
    }
}

/// Splitting at the first separator: if `s[k]` is the first `'\n'`, the lines
/// of `s` are the prefix before it followed by the lines of the suffix.
pub proof fn lemma_lines_of_split(s: Seq<char>, k: int)
    requires
        0 <= k < s.len(),
        s[k] == '\n',
        forall|j: int| 0 <= j < k ==> s[j] != '\n',
    ensures
        lines_of(s) == seq![s.take(k)] + lines_of(s.skip(k + 1)),
    decreases k,
{
    if k == 0 {
        assert(s.take(0) =~= Seq::<char>::empty());
        assert(lines_of(s) =~= seq![s.take(0)] + lines_of(s.skip(1)));
    } else {
        let t = s.skip(1);
        assert(t[k - 1] == '\n');
        assert(forall|j: int| 0 <= j < k - 1 ==> t[j] != '\n');
        lemma_lines_of_split(t, k - 1);
        lemma_lines_of_nonempty(t.skip(k));
        let rest = lines_of(t);
        assert(rest == seq![t.take(k - 1)] + lines_of(t.skip(k)));
        assert(rest.first() == t.take(k - 1));
        assert(seq![s[0]] + t.take(k - 1) =~= s.take(k));
        assert(rest.drop_first() =~= lines_of(t.skip(k)));
        assert(t.skip(k) =~= s.skip(k + 1));
        assert(lines_of(s) == seq![seq![s[0]] + rest.first()] + rest.drop_first());
        assert(lines_of(s) =~= seq![s.take(k)] + lines_of(s.skip(k + 1)));
    }
}

/// A document without separators is a single line.
pub proof fn lemma_lines_of_single(s: Seq<char>)
    requires
        !has_char(s, '\n'),
    ensures
        lines_of(s) == seq![s],
    decreases s.len(),
{
    if s.len() == 0 {
        assert(lines_of(s) =~~= seq![s]);
    } else {
        assert(s[0] != '\n');
        assert(!has_char(s.skip(1), '\n')) by {
            if exists|i: int| 0 <= i < s.skip(1).len() && s.skip(1)[i] == '\n' {
                let i = choose|i: int| 0 <= i < s.skip(1).len() && s.skip(1)[i] == '\n';
                assert(s[i + 1] == '\n');
            }
        }
        lemma_lines_of_single(s.skip(1));
        let rest = lines_of(s.skip(1));
        assert(rest.first() == s.skip(1));
        assert(seq![s[0]] + s.skip(1) =~= s);
        assert(rest.drop_first().len() == 0);
        assert(lines_of(s) == seq![seq![s[0]] + rest.first()] + rest.drop_first());
        assert(lines_of(s).len() == 1);
        assert(lines_of(s)[0] == seq![s[0]] + rest.first());
        assert(lines_of(s)[0] == s);
        assert(lines_of(s) =~= seq![s]);
    }
}

/// Joining the lines of a document restores the document.
pub proof fn lemma_join_lines_of(s: Seq<char>)
    ensures
        join_lines(lines_of(s)) == s,
    decreases s.len(),
{
    lemma_lines_of_nonempty(s);
    if s.len() == 0 {
        assert(join_lines(lines_of(s)) =~= s);
    } else if s[0] == '\n' {
        lemma_join_lines_of(s.skip(1));
        lemma_lines_of_nonempty(s.skip(1));
        let ls = lines_of(s);
        assert(ls.len() >= 2);
        assert(ls.drop_first() =~= lines_of(s.skip(1)));
        assert(join_lines(ls) == ls[0] + seq!['\n'] + join_lines(ls.drop_first()));
        assert(join_lines(ls) =~= s);
    } else {
        lemma_join_lines_of(s.skip(1));
        lemma_lines_of_nonempty(s.skip(1));
        let rest = lines_of(s.skip(1));
        let ls = lines_of(s);
        assert(ls == seq![seq![s[0]] + rest.first()] + rest.drop_first());
        if rest.len() == 1 {
            assert(rest.drop_first().len() == 0);
            assert(ls.len() == 1);
            assert(join_lines(ls) == ls[0]);
            assert(join_lines(rest) == rest[0]);
            assert(rest[0] == s.skip(1));
            assert(ls[0] == seq![s[0]] + rest.first());
            assert(rest.first() == rest[0]);
            assert(seq![s[0]] + s.skip(1) =~= s);
            assert(join_lines(ls) =~= s);
        } else {
            assert(ls.len() >= 2);
            assert(ls[0] == seq![s[0]] + rest.first());
            assert(rest.first() == rest[0]);
            assert(ls.drop_first() =~= rest.drop_first());
            assert(join_lines(ls) == ls[0] + seq!['\n'] + join_lines(ls.drop_first()));
            assert(join_lines(rest) == rest[0] + seq!['\n'] + join_lines(rest.drop_first()));
            let j = join_lines(rest.drop_first());
            assert((seq![s[0]] + rest[0]) + seq!['\n'] + j =~= seq![s[0]] + (rest[0] + seq!['\n']
                + j));
            assert(rest[0] + seq!['\n'] + j == s.skip(1));
            assert(seq![s[0]] + s.skip(1) =~= s);
            assert(join_lines(ls) =~= s);
        }
    }
}

/// Splitting a joined document recovers the lines, provided no line holds a
/// separator of its own.
pub proof fn lemma_lines_of_join(ls: Seq<Seq<char>>)
    requires
        ls.len() >= 1,
        forall|j: int| 0 <= j < ls.len() ==> !has_char(#[trigger] ls[j], '\n'),
    ensures
        lines_of(join_lines(ls)) == ls,
    decreases ls.len(),
{
    if ls.len() == 1 {
        lemma_lines_of_single(ls[0]);
        assert(lines_of(join_lines(ls)) =~= ls);
    } else {
        let d = join_lines(ls);
        assert(d == ls[0] + seq!['\n'] + join_lines(ls.drop_first()));
        let k = ls[0].len() as int;
        assert(d[k] == '\n');
        assert forall|j: int| 0 <= j < k implies d[j] != '\n' by {
            assert(d[j] == ls[0][j]);
            assert(!(exists|m: int| 0 <= m < ls[0].len() && ls[0][m] == '\n'));
        }
        lemma_lines_of_split(d, k);
        assert(d.take(k) =~= ls[0]);
        assert(d.skip(k + 1) =~= join_lines(ls.drop_first()));
        assert(forall|j: int|
            0 <= j < ls.drop_first().len() ==> !has_char(#[trigger] ls.drop_first()[j], '\n'));
        lemma_lines_of_join(ls.drop_first());
        assert(lines_of(d) =~= ls);
    }
}

/// Appending one more line to a join appends a separator and that line.
pub proof fn lemma_join_lines_push(ls: Seq<Seq<char>>, x: Seq<char>)
    requires
        ls.len() >= 1,
    ensures
        join_lines(ls.push(x)) == join_lines(ls) + seq!['\n'] + x,
    decreases ls.len(),
{
    if ls.len() == 1 {
        assert(ls.push(x).drop_first() =~= seq![x]);
        assert(join_lines(ls.push(x)) == ls.push(x)[0] + seq!['\n'] + join_lines(seq![x]));
        assert(join_lines(ls.push(x)) =~= join_lines(ls) + seq!['\n'] + x);
    } else {
        lemma_join_lines_push(ls.drop_first(), x);
        assert(ls.push(x).drop_first() =~= ls.drop_first().push(x));
        assert(join_lines(ls.push(x)) == ls[0] + seq!['\n'] + join_lines(ls.drop_first().push(x)));
        assert(join_lines(ls.push(x)) =~= join_lines(ls) + seq!['\n'] + x);
    }
}

/// If `j` is the first occurrence of `c` at or after `i`, the search finds it.
pub proof fn lemma_find_char_from_exact(s: Seq<char>, c: char, i: int, j: int)
    requires
        0 <= i <= j < s.len(),
        s[j] == c,
        forall|k: int| i <= k < j ==> s[k] != c,
    ensures
        find_char_from(s, c, i) == Some(j),
{
    lemma_find_char_from_correct(s, c, i);
    match find_char_from(s, c, i) {
        Some(j2) => {
            if j2 < j {
            } else if j < j2 {
            }
        },
        None => {},
    }
}

/// The views of a sequence of owned strings.
pub open spec fn views_of(ls: Seq<String>) -> Seq<Seq<char>> {
    ls.map_values(|l: String| l@)
}

/// Whether `pat` occurs in `s` starting at index `i`.
fn match_at_exec(s: &str, pat: &str, i: usize) -> (r: bool)
    requires
        i + pat@.len() <= s@.len(),
    ensures
        r == match_at(s@, pat@, i as int),
{
    let n = s.unicode_len();
    let m = pat.unicode_len();
    let mut k: usize = 0;
    while k < m
        invariant
            k <= m,
            m == pat@.len(),
            n == s@.len(),
            i + m <= n,
            forall|j: int| 0 <= j < k ==> s@[i + j] == pat@[j],
        decreases m - k,
    {
        if s.get_char(i + k) != pat.get_char(k) {
            proof {
                assert(s@.subrange(i as int, i + m) != pat@) by {
                    assert(s@.subrange(i as int, i + m)[k as int] == s@[i + k]);
                }
            }
            return false;
        }
        k += 1;
    }
    proof {
        assert(s@.subrange(i as int, i + m) =~= pat@);
    }
    true
}

/// First occurrence of `pat` in `s`, as an index.
pub fn find_substr(s: &str, pat: &str) -> (r: Option<usize>)
    ensures
        match r {
            Some(i) => find_sub(s@, pat@) == Some(i as int),
            None => find_sub(s@, pat@) is None,
        },
{
    let n = s.unicode_len();
    let m = pat.unicode_len();
    if m == 0 {
        proof {
            assert(s@.subrange(0, 0) =~= pat@);
        }
        return Some(0);
    }
    if m > n {
        return None;
    }
    let mut i: usize = 0;
    while i <= n - m
        invariant
            m == pat@.len(),
            n == s@.len(),
            1 <= m <= n,
            i <= n,
            find_sub(s@, pat@) == find_sub_from(s@, pat@, i as int),
        decreases n - i,
    {
        if match_at_exec(s, pat, i) {
            return Some(i);
        }
        i += 1;
    }
    None
}

/// First occurrence of `c` in `s` at or after `from`, as an index.
pub fn find_char_at(s: &str, from: usize, c: char) -> (r: Option<usize>)
    requires
        from <= s@.len(),
    ensures
        match r {
            Some(i) => find_char_from(s@, c, from as int) == Some(i as int),
            None => find_char_from(s@, c, from as int) is None,
        },
{
    let n = s.unicode_len();
    let mut i: usize = from;
    while i < n
        invariant
            from <= i <= n,
            n == s@.len(),
            forall|k: int| from <= k < i ==> s@[k] != c,
        decreases n - i,
    {
        if s.get_char(i) == c {
            proof {
                lemma_find_char_from_exact(s@, c, from as int, i as int);
            }
            return Some(i);
        }
        i += 1;
    }
    proof {
        lemma_find_char_from_correct(s@, c, from as int);
    }
    None
}

/// Whether `s` begins with `p`.
pub fn str_starts_with(s: &str, p: &str) -> (r: bool)
    ensures
        r == starts_with(s@, p@),
{
    let n = s.unicode_len();
    let m = p.unicode_len();
    if m > n {
        return false;
    }
    match_at_exec(s, p, 0)
}

/// Whether `s` ends with `p`.
pub fn str_ends_with(s: &str, p: &str) -> (r: bool)
    ensures
        r == ends_with(s@, p@),
{
    let n = s.unicode_len();
    let m = p.unicode_len();
    if m > n {
        return false;
    }
    match_at_exec(s, p, n - m)
}

/// Whether two strings hold the same characters.
pub fn str_eq(a: &str, b: &str) -> (r: bool)
    ensures
        r == (a@ == b@),
{
    let n = a.unicode_len();
    let m = b.unicode_len();
    if n != m {
        return false;
    }
    let mut i: usize = 0;
    while i < n
        invariant
            i <= n,
            n == a@.len(),
            n == b@.len(),
            forall|k: int| 0 <= k < i ==> a@[k] == b@[k],
        decreases n - i,
    {
        if a.get_char(i) != b.get_char(i) {
            return false;
        }
        i += 1;
    }
    proof {
        assert(a@ =~= b@);
    }
    true
}

/// Split a document into its lines.
pub fn split_lines(text: &str) -> (r: Vec<String>)
    ensures
        views_of(r@) == lines_of(text@),
{
    let n = text.unicode_len();
    let mut done: Vec<String> = Vec::new();
    let mut start: usize = 0;
    let mut i: usize = 0;
    proof {
        assert(text@.skip(0) =~= text@);
        assert(views_of(done@) =~= Seq::<Seq<char>>::empty());
    }
    while i < n
        invariant
            start <= i <= n,
            n == text@.len(),
            forall|k: int| start <= k < i ==> text@[k] != '\n',
            lines_of(text@) =~= views_of(done@) + lines_of(text@.skip(start as int)),
        decreases n - i,
    {
        if text.get_char(i) == '\n' {
            let line = String::from_str(text.substring_char(start, i));
            proof {
                let suf = text@.skip(start as int);
                assert(suf[i - start] == '\n');
                assert(forall|k: int| 0 <= k < i - start ==> suf[k] != '\n');
                lemma_lines_of_split(suf, i - start);
                assert(suf.take(i - start) =~= text@.subrange(start as int, i as int));
                assert(suf.skip(i - start + 1) =~= text@.skip(i + 1));
                assert(views_of(done@.push(line)) =~= views_of(done@) + seq![line@]);
            }
            done.push(line);
            start = i + 1;
        }
        i += 1;
    }
    let last = String::from_str(text.substring_char(start, n));
    proof {
        let suf = text@.skip(start as int);
        assert(!has_char(suf, '\n')) by {
            if exists|m: int| 0 <= m < suf.len() && suf[m] == '\n' {
                let m = choose|m: int| 0 <= m < suf.len() && suf[m] == '\n';
                assert(text@[start + m] == '\n');
            }
        }
        lemma_lines_of_single(suf);
        assert(suf =~= text@.subrange(start as int, n as int));
        assert(views_of(done@.push(last)) =~= views_of(done@) + seq![last@]);
    }
    done.push(last);
    proof {
        assert(views_of(done@) =~= lines_of(text@));
    }
    done
}

/// Join lines back into a document, separated by `'\n'`.
pub fn join_lines_exec(lines: &Vec<String>) -> (r: String)
    requires
        lines@.len() >= 1,
    ensures
        r@ == join_lines(views_of(lines@)),
{
    let mut out = String::new();
    out.append(lines[0].as_str());
    let mut j: usize = 1;
    while j < lines.len()
        invariant
            1 <= j <= lines@.len(),
            out@ == join_lines(views_of(lines@.take(j as int))),
        decreases lines@.len() - j,
    {
        out.append("\n");
        out.append(lines[j].as_str());
        proof {
            reveal_strlit("\n");
            let prefix = views_of(lines@.take(j as int));
            assert(prefix.len() == j);
            lemma_join_lines_push(prefix, lines@[j as int]@);
            assert(prefix.push(lines@[j as int]@) =~= views_of(lines@.take(j + 1)));
            assert(out@ == join_lines(views_of(lines@.take(j + 1))));
        }
        j += 1;
    }
    proof {
        assert(lines@.take(lines@.len() as int) =~= lines@);
    }
    out
}

} // verus!
