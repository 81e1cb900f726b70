//! Reading and rewriting a package descriptor: a line-oriented `key=value`
//! text document. The version field is read as the text between the
//! `pkgver=` marker and the following line break; rewrites replace whole
//! lines selected by a field-key prefix and leave every other line untouched.

use vstd::prelude::*;

use crate::text::{
    find_char, find_char_at, find_sub, find_substr, has_char, has_sub, join_lines,
    join_lines_exec, lemma_find_char_skip, lemma_find_sub_from_correct, lemma_join_lines_of,
    lemma_lines_of_join, lemma_lines_of_no_newline, lemma_lines_of_nonempty, lines_of, match_at,
    split_lines, starts_with, str_starts_with, views_of,
};

verus! {

/// Marker that introduces the version field.
pub open spec fn spec_pkgver_marker() -> Seq<char> {
    "pkgver="@
}

/// Marker that introduces the revision counter field.
pub open spec fn spec_pkgrel_marker() -> Seq<char> {
    "pkgrel="@
}

/// Marker that introduces the x86_64 checksum field.
pub open spec fn spec_sha256_x64_marker() -> Seq<char> {
    "sha256sums_x86_64="@
}

/// Marker that introduces the aarch64 checksum field.
pub open spec fn spec_sha256_arm64_marker() -> Seq<char> {
    "sha256sums_aarch64="@
}

/// Why the current version could not be read from a descriptor.
#[derive(Clone, Copy, Debug, PartialEq, Eq, Structural)]
pub enum ReadVersionError {
    /// The `pkgver=` marker does not occur in the document.
    NoPkgverFound,
    /// The `pkgver=` marker is trailing content: no line break follows it.
    NoLineAfterPkgver,
}

/// The version a descriptor records: the text between the first `pkgver=`
/// marker and the next line break.
pub open spec fn read_version_spec(doc: Seq<char>) -> Result<Seq<char>, ReadVersionError> {
    match find_sub(doc, spec_pkgver_marker()) {
        None => Err(ReadVersionError::NoPkgverFound),
        Some(i) => {
            let rest = doc.skip(i + spec_pkgver_marker().len());
            match find_char(rest, '\n') {
                None => Err(ReadVersionError::NoLineAfterPkgver),
                Some(k) => Ok(rest.take(k)),
            }
        },
    }
}

/// Extract the current version from a descriptor document.
pub fn read_current_version(text: &str) -> (r: Result<String, ReadVersionError>)
    ensures
        match r {
            Ok(v) => read_version_spec(text@) == Ok::<Seq<char>, ReadVersionError>(v@),
            Err(e) => read_version_spec(text@) == Err::<Seq<char>, ReadVersionError>(e),
        },
{
    let marker = "pkgver=";
    match find_substr(text, marker) {
        None => Err(ReadVersionError::NoPkgverFound),
        Some(i) => {
            let n = text.unicode_len();
            let mlen = marker.unicode_len();
            proof {
                lemma_find_sub_from_correct(text@, marker@, 0);
                assert(i + mlen <= n);
            }
            let from = i + mlen;
            proof {
                lemma_find_char_skip(text@, '\n', from as int);
            }
            match find_char_at(text, from, '\n') {
                None => Err(ReadVersionError::NoLineAfterPkgver),
                Some(k) => {
                    proof {
                        crate::text::lemma_find_char_from_correct(text@, '\n', from as int);
                        assert(from <= k < n);
                    }
                    let v = String::from_str(text.substring_char(from, k));
                    proof {
                        let rest = text@.skip(from as int);
                        assert(v@ =~= rest.take(k - from));
                    }
                    Ok(v)
                },
            }
        },
    }
}

/// One line-rewriting rule: a line that begins with the key is replaced.
pub open spec fn apply_edits(ln: Seq<char>, edits: Seq<(Seq<char>, Seq<char>)>) -> Seq<char>
    decreases edits.len(),
{
    if edits.len() == 0 {
        ln
    } else if starts_with(ln, edits[0].0) {
        edits[0].1
    } else {
        apply_edits(ln, edits.drop_first())
    }
}

/// The views of a list of (key, replacement line) pairs.
pub open spec fn edit_views(edits: Seq<(String, String)>) -> Seq<(Seq<char>, Seq<char>)> {
    edits.map_values(|e: (String, String)| (e.0@, e.1@))
}

/// The lines of a document after rewriting each by the rules.
pub open spec fn rewritten_lines(doc: Seq<char>, edits: Seq<(Seq<char>, Seq<char>)>) -> Seq<
    Seq<char>,
> {
    lines_of(doc).map_values(|ln: Seq<char>| apply_edits(ln, edits))
}

/// A document rewritten line by line: each line that begins with the key of
/// the first applicable rule is replaced by that rule's line; all others stay.
pub open spec fn rewrite_doc_spec(doc: Seq<char>, edits: Seq<(Seq<char>, Seq<char>)>) -> Seq<
    char,
> {
    join_lines(rewritten_lines(doc, edits))
}

/// Replace `ln` according to the first rule whose key begins it, if any.
fn apply_edits_exec(ln: &String, edits: &Vec<(String, String)>) -> (r: String)
    ensures
        r@ == apply_edits(ln@, edit_views(edits@)),
{
    let mut e: usize = 0;
    proof {
        assert(edit_views(edits@).skip(0) =~= edit_views(edits@));
    }
    while e < edits.len()
        invariant
            e <= edits@.len(),
            apply_edits(ln@, edit_views(edits@)) == apply_edits(
                ln@,
                edit_views(edits@).skip(e as int),
            ),
        decreases edits@.len() - e,
    {
        let matched = str_starts_with(ln.as_str(), edits[e].0.as_str());
        proof {
            assert(edit_views(edits@).skip(e as int)[0] == (edits@[e as int].0@, edits@[
                e as int].1@));
        }
        if matched {
            return edits[e].1.clone();
        }
        proof {
            assert(edit_views(edits@).skip(e as int).drop_first() =~= edit_views(edits@).skip(
                e + 1));
        }
        e += 1;
    }
    proof {
        assert(edit_views(edits@).skip(edits@.len() as int).len() == 0);
    }
    ln.clone()
}

/// Rewrite a document line by line according to the given rules.
fn rewrite_doc(text: &str, edits: &Vec<(String, String)>) -> (r: String)
    ensures
        r@ == rewrite_doc_spec(text@, edit_views(edits@)),
{
    let lines = split_lines(text);
    let mut out: Vec<String> = Vec::new();
    let mut i: usize = 0;
    let ghost target = rewritten_lines(text@, edit_views(edits@));
    proof {
        lemma_lines_of_nonempty(text@);
        assert(views_of(out@) =~= target.take(0));
    }
    while i < lines.len()
        invariant
            i <= lines@.len(),
            views_of(lines@) == lines_of(text@),
            target == rewritten_lines(text@, edit_views(edits@)),
            views_of(out@) == target.take(i as int),
            out@.len() == i,
        decreases lines@.len() - i,
    {
        let new_line = apply_edits_exec(&lines[i], edits);
        proof {
            assert(lines@[i as int]@ == lines_of(text@)[i as int]);
            assert(target[i as int] == apply_edits(lines_of(text@)[i as int], edit_views(edits@)));
            assert(views_of(out@.push(new_line)) =~= target.take(i + 1));
        }
        out.push(new_line);
        i += 1;
    }
    proof {
        assert(target.take(target.len() as int) =~= target);
        assert(views_of(out@) == target);
    }
    join_lines_exec(&out)
}

/// A line after the version rewrite: a line carrying the version field is
/// replaced by the marker followed by `v`; any other line is unchanged.
pub open spec fn version_line_rewritten(ln: Seq<char>, v: Seq<char>) -> Seq<char> {
    if starts_with(ln, spec_pkgver_marker()) {
        spec_pkgver_marker() + v
    } else {
        ln
    }
}

/// The lines of a document after the version rewrite.
pub open spec fn version_lines(doc: Seq<char>, v: Seq<char>) -> Seq<Seq<char>> {
    lines_of(doc).map_values(|ln: Seq<char>| version_line_rewritten(ln, v))
}

/// A document after the version rewrite.
pub open spec fn version_rewritten(doc: Seq<char>, v: Seq<char>) -> Seq<char> {
    join_lines(version_lines(doc, v))
}

/// Rewrite every line carrying the version field to hold `new_version`,
/// leaving all other lines unchanged.
pub fn write_version(text: &str, new_version: &str) -> (r: String)
    ensures
        r@ == version_rewritten(text@, new_version@),
{
    let mut edits: Vec<(String, String)> = Vec::new();
    let key = String::from_str("pkgver=");
    let repl = String::from_str("pkgver=").concat(new_version);
    edits.push((key, repl));
    let out = rewrite_doc(text, &edits);
    proof {
        let ev = edit_views(edits@);
        let lns = lines_of(text@);
        assert(ev.len() == 1);
        assert(ev[0] == (edits@[0].0@, edits@[0].1@));
        assert(ev[0].0 == spec_pkgver_marker());
        assert(ev[0].1 == spec_pkgver_marker() + new_version@);
        assert forall|j: int| 0 <= j < lns.len() implies apply_edits(#[trigger] lns[j], ev)
            == version_line_rewritten(lns[j], new_version@) by {
            if !starts_with(lns[j], spec_pkgver_marker()) {
                assert(apply_edits(lns[j], ev.drop_first()) == lns[j]);
            }
        }
        assert(rewritten_lines(text@, ev) =~= version_lines(text@, new_version@));
    }
    out
}

/// A line after the revision reset: a line carrying the revision counter is
/// replaced by the counter set to one; any other line is unchanged.
pub open spec fn revision_line_rewritten(ln: Seq<char>) -> Seq<char> {
    if starts_with(ln, spec_pkgrel_marker()) {
        "pkgrel=1"@
    } else {
        ln
    }
}

/// The lines of a document after the revision reset.
pub open spec fn revision_lines(doc: Seq<char>) -> Seq<Seq<char>> {
    lines_of(doc).map_values(|ln: Seq<char>| revision_line_rewritten(ln))
}

/// A document after the revision reset.
pub open spec fn revision_reset_spec(doc: Seq<char>) -> Seq<char> {
    join_lines(revision_lines(doc))
}

/// Rewrite every line carrying the revision counter to set it to one,
/// leaving all other lines unchanged.
pub fn reset_revision(text: &str) -> (r: String)
    ensures
        r@ == revision_reset_spec(text@),
{
    let mut edits: Vec<(String, String)> = Vec::new();
    let key = String::from_str("pkgrel=");
    let repl = String::from_str("pkgrel=1");
    edits.push((key, repl));
    let out = rewrite_doc(text, &edits);
    proof {
        let ev = edit_views(edits@);
        let lns = lines_of(text@);
        assert(ev.len() == 1);
        assert(ev[0] == (edits@[0].0@, edits@[0].1@));
        assert(ev[0].0 == spec_pkgrel_marker());
        assert(ev[0].1 == "pkgrel=1"@);
        assert forall|j: int| 0 <= j < lns.len() implies apply_edits(#[trigger] lns[j], ev)
            == revision_line_rewritten(lns[j]) by {
            if !starts_with(lns[j], spec_pkgrel_marker()) {
                assert(apply_edits(lns[j], ev.drop_first()) == lns[j]);
            }
        }
        assert(rewritten_lines(text@, ev) =~= revision_lines(text@));
    }
    out
}

/// The view of an optional checksum argument.
pub open spec fn opt_str_view(o: Option<&str>) -> Option<Seq<char>> {
    match o {
        Some(s) => Some(s@),
        None => None,
    }
}

/// A line after the checksum rewrite: for each architecture whose checksum is
/// given, a line carrying that architecture's checksum field is replaced by
/// the field set to the quoted checksum; any other line is unchanged.
pub open spec fn checksum_line_rewritten(
    ln: Seq<char>,
    x64: Option<Seq<char>>,
    arm64: Option<Seq<char>>,
) -> Seq<char> {
    if x64 is Some && starts_with(ln, spec_sha256_x64_marker()) {
        spec_sha256_x64_marker() + "('"@ + x64->0 + "')"@
    } else if arm64 is Some && starts_with(ln, spec_sha256_arm64_marker()) {
        spec_sha256_arm64_marker() + "('"@ + arm64->0 + "')"@
    } else {
        ln
    }
}

/// The lines of a document after the checksum rewrite.
pub open spec fn checksum_lines(
    doc: Seq<char>,
    x64: Option<Seq<char>>,
    arm64: Option<Seq<char>>,
) -> Seq<Seq<char>> {
    lines_of(doc).map_values(|ln: Seq<char>| checksum_line_rewritten(ln, x64, arm64))
}

/// A document after the checksum rewrite.
pub open spec fn checksums_rewritten(
    doc: Seq<char>,
    x64: Option<Seq<char>>,
    arm64: Option<Seq<char>>,
) -> Seq<char> {
    join_lines(checksum_lines(doc, x64, arm64))
}

/// Rewrite the per-architecture checksum lines for each checksum that is
/// given; an absent checksum leaves its architecture's line untouched.
pub fn write_checksums(text: &str, x64_sum: Option<&str>, arm64_sum: Option<&str>) -> (r: String)
    ensures
        r@ == checksums_rewritten(text@, opt_str_view(x64_sum), opt_str_view(arm64_sum)),
{
    let ghost gx = opt_str_view(x64_sum);
    let ghost ga = opt_str_view(arm64_sum);
    let mut edits: Vec<(String, String)> = Vec::new();
    if let Some(h) = x64_sum {
        proof {
            assert(gx == Some::<Seq<char>>(h@));
        }
        let key = String::from_str("sha256sums_x86_64=");
        let repl = String::from_str("sha256sums_x86_64=").concat("('").concat(h).concat("')");
        proof {
            assert(repl@ == spec_sha256_x64_marker() + "('"@ + gx->0 + "')"@);
        }
        edits.push((key, repl));
    }
    if let Some(h) = arm64_sum {
        proof {
            assert(ga == Some::<Seq<char>>(h@));
        }
        let key = String::from_str("sha256sums_aarch64=");
        let repl = String::from_str("sha256sums_aarch64=").concat("('").concat(h).concat("')");
        proof {
            assert(repl@ == spec_sha256_arm64_marker() + "('"@ + ga->0 + "')"@);
        }
        edits.push((key, repl));
    }
    let out = rewrite_doc(text, &edits);
    proof {
        let ev = edit_views(edits@);
        let lns = lines_of(text@);
        assert forall|j: int| 0 <= j < lns.len() implies apply_edits(#[trigger] lns[j], ev)
            == checksum_line_rewritten(lns[j], gx, ga) by {
            let ln = lns[j];
            if gx is Some && ga is Some {
                assert(ev.len() == 2);
                assert(ev[0] == (edits@[0].0@, edits@[0].1@));
                assert(ev[1] == (edits@[1].0@, edits@[1].1@));
                assert(ev[0].0 == spec_sha256_x64_marker());
                assert(ev[0].1 == spec_sha256_x64_marker() + "('"@ + gx->0 + "')"@);
                assert(ev[1].0 == spec_sha256_arm64_marker());
                assert(ev[1].1 == spec_sha256_arm64_marker() + "('"@ + ga->0 + "')"@);
                assert(ev.drop_first()[0] == ev[1]);
                assert(ev.drop_first().len() == 1);
                if starts_with(ln, spec_sha256_x64_marker()) {
                    assert(apply_edits(ln, ev) == ev[0].1);
                } else if starts_with(ln, spec_sha256_arm64_marker()) {
                    assert(apply_edits(ln, ev) == apply_edits(ln, ev.drop_first()));
                    assert(apply_edits(ln, ev.drop_first()) == ev[1].1);
                } else {
                    assert(apply_edits(ln, ev) == apply_edits(ln, ev.drop_first()));
                    assert(apply_edits(ln, ev.drop_first()) == apply_edits(
                        ln,
                        ev.drop_first().drop_first(),
                    ));
                    assert(apply_edits(ln, ev.drop_first().drop_first()) == ln);
                }
                assert(apply_edits(ln, ev) == checksum_line_rewritten(ln, gx, ga));
            } else if gx is Some {
                assert(ev.len() == 1);
                assert(ev[0] == (edits@[0].0@, edits@[0].1@));
                assert(ev[0].0 == spec_sha256_x64_marker());
                assert(ev[0].1 == spec_sha256_x64_marker() + "('"@ + gx->0 + "')"@);
                if !starts_with(ln, spec_sha256_x64_marker()) {
                    assert(apply_edits(ln, ev.drop_first()) == ln);
                }
                assert(apply_edits(ln, ev) == checksum_line_rewritten(ln, gx, ga));
            } else if ga is Some {
                assert(ev.len() == 1);
                assert(ev[0] == (edits@[0].0@, edits@[0].1@));
                assert(ev[0].0 == spec_sha256_arm64_marker());
                assert(ev[0].1 == spec_sha256_arm64_marker() + "('"@ + ga->0 + "')"@);
                if !starts_with(ln, spec_sha256_arm64_marker()) {
                    assert(apply_edits(ln, ev.drop_first()) == ln);
                }
                assert(apply_edits(ln, ev) == checksum_line_rewritten(ln, gx, ga));
            } else {
                assert(ev.len() == 0);
                assert(apply_edits(ln, ev) == checksum_line_rewritten(ln, gx, ga));
            }
        }
        assert(rewritten_lines(text@, ev) =~= checksum_lines(text@, gx, ga));
    }
    out
}

/// None of the fixed field markers or replacement fragments holds a line
/// break.
proof fn lemma_literals_no_newline()
    ensures
        !has_char(spec_pkgver_marker(), '\n'),
        !has_char(spec_pkgrel_marker(), '\n'),
        !has_char(spec_sha256_x64_marker(), '\n'),
        !has_char(spec_sha256_arm64_marker(), '\n'),
        !has_char("pkgrel=1"@, '\n'),
        !has_char("('"@, '\n'),
        !has_char("')"@, '\n'),
{
    reveal_strlit("pkgver=");
    reveal_strlit("pkgrel=");
    reveal_strlit("sha256sums_x86_64=");
    reveal_strlit("sha256sums_aarch64=");
    reveal_strlit("pkgrel=1");
    reveal_strlit("('");
    reveal_strlit("')");
}

/// A concatenation of break-free texts is break-free.
proof fn lemma_concat_no_newline(a: Seq<char>, b: Seq<char>)
    requires
        !has_char(a, '\n'),
        !has_char(b, '\n'),
    ensures
        !has_char(a + b, '\n'),
{
    if exists|i: int| 0 <= i < (a + b).len() && (a + b)[i] == '\n' {
        let i = choose|i: int| 0 <= i < (a + b).len() && (a + b)[i] == '\n';
        if i < a.len() {
            assert(a[i] == '\n');
        } else {
            assert(b[i - a.len()] == '\n');
        }
    }
}

/// If the first occurrence of the version marker in a document is followed by
/// `v` and then a line break, reading the document yields exactly `v`.
pub proof fn lemma_read_finds_version(doc: Seq<char>, i: int, v: Seq<char>)
    requires
        match_at(doc, spec_pkgver_marker(), i),
        forall|k: int| 0 <= k < i ==> !match_at(doc, spec_pkgver_marker(), k),
        i + spec_pkgver_marker().len() + v.len() < doc.len(),
        doc.subrange(
            i + spec_pkgver_marker().len(),
            i + spec_pkgver_marker().len() + v.len(),
        ) == v,
        !has_char(v, '\n'),
        doc[i + spec_pkgver_marker().len() + v.len()] == '\n',
    ensures
        read_version_spec(doc) == Ok::<Seq<char>, ReadVersionError>(v),
{
    let m = spec_pkgver_marker().len() as int;
    crate::text::lemma_find_sub_from_exact(doc, spec_pkgver_marker(), 0, i);
    let rest = doc.skip(i + m);
    assert(rest[v.len() as int] == '\n');
    assert forall|k: int| 0 <= k < v.len() implies rest[k] != '\n' by {
        assert(rest[k] == doc[i + m + k]);
        assert(doc[i + m + k] == doc.subrange(i + m, i + m + v.len() as int)[k]);
        assert(!(exists|q: int| 0 <= q < v.len() && v[q] == '\n'));
    }
    crate::text::lemma_find_char_from_exact(rest, '\n', 0, v.len() as int);
    assert(rest.take(v.len() as int) =~= v);
}

/// A document in which the version marker does not occur cannot be read.
pub proof fn lemma_read_no_marker(doc: Seq<char>)
    requires
        !has_sub(doc, spec_pkgver_marker()),
    ensures
        read_version_spec(doc) == Err::<Seq<char>, ReadVersionError>(
            ReadVersionError::NoPkgverFound,
        ),
{
    lemma_find_sub_from_correct(doc, spec_pkgver_marker(), 0);
    if find_sub(doc, spec_pkgver_marker()) is Some {
        let j = find_sub(doc, spec_pkgver_marker())->0;
        assert(match_at(doc, spec_pkgver_marker(), j));
    }
}

/// A document whose version marker is trailing content, with no line break
/// after it, reads as malformed — distinctly from a missing marker.
pub proof fn lemma_read_no_line_break(doc: Seq<char>, i: int)
    requires
        match_at(doc, spec_pkgver_marker(), i),
        forall|k: int| 0 <= k < i ==> !match_at(doc, spec_pkgver_marker(), k),
        forall|k: int| i + spec_pkgver_marker().len() <= k < doc.len() ==> doc[k] != '\n',
    ensures
        read_version_spec(doc) == Err::<Seq<char>, ReadVersionError>(
            ReadVersionError::NoLineAfterPkgver,
        ),
{
    let m = spec_pkgver_marker().len() as int;
    crate::text::lemma_find_sub_from_exact(doc, spec_pkgver_marker(), 0, i);
    let rest = doc.skip(i + m);
    crate::text::lemma_find_char_from_correct(rest, '\n', 0);
    if find_char(rest, '\n') is Some {
        let k = find_char(rest, '\n')->0;
        assert(doc[i + m + k] == '\n');
    }
}

/// Prepending a line in which the version marker does not occur leaves the
/// version read from the rest of the document unchanged.
proof fn lemma_read_prepended_line(a: Seq<char>, b: Seq<char>)
    requires
        !has_sub(a, spec_pkgver_marker()),
    ensures
        read_version_spec(a + seq!['\n'] + b) == read_version_spec(b),
{
    reveal_strlit("pkgver=");
    let p = spec_pkgver_marker();
    let m = p.len() as int;
    let c = a + seq!['\n'] + b;
    let d = a.len() as int;
    assert(c[d] == '\n');
    assert forall|i: int| match_at(c, p, i) implies i > d && match_at(b, p, i - d - 1) by {
        if i + m <= d {
            assert(a.subrange(i, i + m) =~= c.subrange(i, i + m));
            assert(match_at(a, p, i));
        } else if i <= d {
            assert(c.subrange(i, i + m)[d - i] == '\n');
            assert(p[d - i] == '\n');
            assert(false);
        } else {
            assert(b.subrange(i - d - 1, i - d - 1 + m) =~= c.subrange(i, i + m));
        }
    }
    assert forall|j: int| match_at(b, p, j) implies match_at(c, p, d + 1 + j) by {
        assert(b.subrange(j, j + m) =~= c.subrange(d + 1 + j, d + 1 + j + m));
    }
    lemma_find_sub_from_correct(b, p, 0);
    match find_sub(b, p) {
        None => {
            lemma_find_sub_from_correct(c, p, 0);
            if find_sub(c, p) is Some {
                let i = find_sub(c, p)->0;
                assert(match_at(c, p, i));
                assert(match_at(b, p, i - d - 1));
            }
        },
        Some(j) => {
            assert(match_at(c, p, d + 1 + j));
            assert forall|k: int| 0 <= k < d + 1 + j implies !match_at(c, p, k) by {
                if match_at(c, p, k) {
                    assert(k > d && match_at(b, p, k - d - 1));
                }
            }
            crate::text::lemma_find_sub_from_exact(c, p, 0, d + 1 + j);
            let rest_b = b.skip(j + m);
            let rest_c = c.skip(d + 1 + j + m);
            assert(rest_c =~= rest_b);
        },
    }
}

/// Reading a joined document whose line `l` is the marker followed by a
/// break-free `v`, with no marker occurrence in any earlier line and at least
/// one line after it, yields exactly `v`.
proof fn lemma_read_version_of_join(ls: Seq<Seq<char>>, v: Seq<char>, l: int)
    requires
        0 <= l < ls.len() - 1,
        ls[l] == spec_pkgver_marker() + v,
        forall|j: int| 0 <= j < l ==> !has_sub(#[trigger] ls[j], spec_pkgver_marker()),
        !has_char(v, '\n'),
    ensures
        read_version_spec(join_lines(ls)) == Ok::<Seq<char>, ReadVersionError>(v),
    decreases l,
{
    let p = spec_pkgver_marker();
    let m = p.len() as int;
    let d = join_lines(ls);
    assert(ls.len() >= 2);
    assert(d == ls[0] + seq!['\n'] + join_lines(ls.drop_first()));
    if l == 0 {
        assert(d.subrange(0, m) =~= p);
        assert(match_at(d, p, 0));
        crate::text::lemma_find_sub_from_exact(d, p, 0, 0);
        let rest = d.skip(m);
        let tail = join_lines(ls.drop_first());
        assert(rest =~= v + seq!['\n'] + tail);
        assert(rest[v.len() as int] == '\n');
        assert forall|k: int| 0 <= k < v.len() implies rest[k] != '\n' by {
            assert(rest[k] == v[k]);
            assert(!(exists|q: int| 0 <= q < v.len() && v[q] == '\n'));
        }
        crate::text::lemma_find_char_from_exact(rest, '\n', 0, v.len() as int);
        assert(rest.take(v.len() as int) =~= v);
    } else {
        lemma_read_prepended_line(ls[0], join_lines(ls.drop_first()));
        assert(ls.drop_first()[l - 1] == ls[l]);
        assert(forall|j: int| 0 <= j < l - 1 ==> ls.drop_first()[j] == ls[j + 1]);
        assert forall|j: int| 0 <= j < l - 1 implies !has_sub(
            #[trigger] ls.drop_first()[j],
            spec_pkgver_marker(),
        ) by {
            assert(ls.drop_first()[j] == ls[j + 1]);
        }
        lemma_read_version_of_join(ls.drop_first(), v, l - 1);
    }
}

/// Round trip: after writing a break-free version into a document in which
/// some line carries the version field, no earlier line contains the marker,
/// and a line follows that one, reading yields exactly the written version.
pub proof fn lemma_write_version_round_trip(doc: Seq<char>, v: Seq<char>, l: int)
    requires
        0 <= l < lines_of(doc).len() - 1,
        starts_with(lines_of(doc)[l], spec_pkgver_marker()),
        forall|j: int| 0 <= j < l ==> !has_sub(#[trigger] lines_of(doc)[j], spec_pkgver_marker()),
        !has_char(v, '\n'),
    ensures
        read_version_spec(version_rewritten(doc, v)) == Ok::<Seq<char>, ReadVersionError>(v),
{
    let p = spec_pkgver_marker();
    let ls = version_lines(doc, v);
    assert(ls.len() == lines_of(doc).len());
    assert(ls[l] == p + v);
    assert forall|j: int| 0 <= j < l implies !has_sub(#[trigger] ls[j], p) by {
        assert(!match_at(lines_of(doc)[j], p, 0));
        assert(!starts_with(lines_of(doc)[j], p));
        assert(ls[j] == lines_of(doc)[j]);
    }
    lemma_read_version_of_join(ls, v, l);
}

/// A version rewrite with a break-free version keeps the line count, turns
/// each line carrying the version field into the marker followed by the new
/// version, and leaves every other line byte-identical.
pub proof fn lemma_write_version_lines(doc: Seq<char>, v: Seq<char>)
    requires
        !has_char(v, '\n'),
    ensures
        lines_of(version_rewritten(doc, v)).len() == lines_of(doc).len(),
        forall|j: int| 0 <= j < lines_of(doc).len() ==> lines_of(version_rewritten(doc, v))[j]
            == version_line_rewritten(#[trigger] lines_of(doc)[j], v),
{
    lemma_literals_no_newline();
    lemma_lines_of_no_newline(doc);
    lemma_lines_of_nonempty(doc);
    let ls = version_lines(doc, v);
    assert forall|j: int| 0 <= j < ls.len() implies !has_char(#[trigger] ls[j], '\n') by {
        if starts_with(lines_of(doc)[j], spec_pkgver_marker()) {
            lemma_concat_no_newline(spec_pkgver_marker(), v);
        }
    }
    lemma_lines_of_join(ls);
}

/// A revision reset keeps the line count, turns each line carrying the
/// revision counter into the counter set to one, and leaves every other line
/// byte-identical.
pub proof fn lemma_reset_revision_lines(doc: Seq<char>)
    ensures
        lines_of(revision_reset_spec(doc)).len() == lines_of(doc).len(),
        forall|j: int| 0 <= j < lines_of(doc).len() ==> lines_of(revision_reset_spec(doc))[j]
            == revision_line_rewritten(#[trigger] lines_of(doc)[j]),
{
    lemma_literals_no_newline();
    lemma_lines_of_no_newline(doc);
    lemma_lines_of_nonempty(doc);
    let ls = revision_lines(doc);
    assert forall|j: int| 0 <= j < ls.len() implies !has_char(#[trigger] ls[j], '\n') by {}
    lemma_lines_of_join(ls);
}

/// Resetting the revision of a document with no revision counter line gives
/// back the document unchanged.
pub proof fn lemma_reset_revision_unchanged(doc: Seq<char>)
    requires
        forall|j: int| 0 <= j < lines_of(doc).len() ==> !starts_with(
            #[trigger] lines_of(doc)[j],
            spec_pkgrel_marker(),
        ),
    ensures
        revision_reset_spec(doc) == doc,
{
    assert(revision_lines(doc) =~= lines_of(doc));
    lemma_join_lines_of(doc);
}

/// A checksum rewrite with break-free checksums keeps the line count, turns
/// each selected architecture's checksum line into the field set to the
/// quoted checksum, and leaves every other line byte-identical: an absent
/// checksum leaves its architecture's line untouched.
pub proof fn lemma_write_checksums_lines(
    doc: Seq<char>,
    x64: Option<Seq<char>>,
    arm64: Option<Seq<char>>,
)
    requires
        x64 is Some ==> !has_char(x64->0, '\n'),
        arm64 is Some ==> !has_char(arm64->0, '\n'),
    ensures
        lines_of(checksums_rewritten(doc, x64, arm64)).len() == lines_of(doc).len(),
        forall|j: int| 0 <= j < lines_of(doc).len() ==> lines_of(
            checksums_rewritten(doc, x64, arm64),
        )[j] == checksum_line_rewritten(#[trigger] lines_of(doc)[j], x64, arm64),
{
    lemma_literals_no_newline();
    lemma_lines_of_no_newline(doc);
    lemma_lines_of_nonempty(doc);
    let ls = checksum_lines(doc, x64, arm64);
    assert forall|j: int| 0 <= j < ls.len() implies !has_char(#[trigger] ls[j], '\n') by {
        let ln = lines_of(doc)[j];
        if x64 is Some && starts_with(ln, spec_sha256_x64_marker()) {
            lemma_concat_no_newline(spec_sha256_x64_marker(), "('"@);
            lemma_concat_no_newline(spec_sha256_x64_marker() + "('"@, x64->0);
            lemma_concat_no_newline(spec_sha256_x64_marker() + "('"@ + x64->0, "')"@);
        } else if arm64 is Some && starts_with(ln, spec_sha256_arm64_marker()) {
            lemma_concat_no_newline(spec_sha256_arm64_marker(), "('"@);
            lemma_concat_no_newline(spec_sha256_arm64_marker() + "('"@, arm64->0);
            lemma_concat_no_newline(spec_sha256_arm64_marker() + "('"@ + arm64->0, "')"@);
        }
    }
    lemma_lines_of_join(ls);
}

/// A checksum rewrite given no checksum at all gives back the document
/// unchanged.
pub proof fn lemma_write_checksums_noop(doc: Seq<char>)
    ensures
        checksums_rewritten(doc, None, None) == doc,
{
    assert(checksum_lines(doc, None, None) =~= lines_of(doc));
    lemma_join_lines_of(doc);
}

} // verus!
