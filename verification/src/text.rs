//! Character-sequence utilities shared by the parsing pipeline: whitespace
//! trimming, line splitting, substring search and substring removal, each
//! with a sequence-level specification.

use vstd::prelude::*;
use vstd::string::StrSliceExecFns;

verus! {

/// The ASCII whitespace characters stripped from the ends of a document.
pub open spec fn is_ws_char(c: char) -> bool {
    c == ' ' || c == '\t' || c == '\n' || c == '\r' || c == '\x0c'
}

/// A decimal digit character.
pub open spec fn is_digit_char(c: char) -> bool {
    48 <= c as int && c as int <= 57
}

/// The numeric value of a decimal digit character.
pub open spec fn digit_val(c: char) -> int {
    c as int - 48
}

/// Index of the first occurrence of `c` in `s` at or after position `k`.
pub open spec fn find_char_at(s: Seq<char>, c: char, k: int) -> Option<int>
    decreases s.len() - k,
{
    if !(0 <= k < s.len()) {
        None
    } else if s[k] == c {
        Some(k)
    } else {
        find_char_at(s, c, k + 1)
    }
}

pub proof fn lemma_find_char_at(s: Seq<char>, c: char, k: int)
    requires
        0 <= k <= s.len(),
    ensures
        match find_char_at(s, c, k) {
            Some(i) => k <= i < s.len() && s[i] == c && (forall|j: int| k <= j < i ==> s[j] != c),
            None => forall|j: int| k <= j < s.len() ==> s[j] != c,
        },
    decreases s.len() - k,
{
    if k < s.len() && s[k] != c {
        lemma_find_char_at(s, c, k + 1);
    }
}

/// If `c` first occurs at position `m` (counting from `k`), the search finds it.
pub proof fn lemma_find_char_at_witness(s: Seq<char>, c: char, k: int, m: int)
    requires
        0 <= k <= m < s.len(),
        s[m] == c,
        forall|j: int| k <= j < m ==> s[j] != c,
    ensures
        find_char_at(s, c, k) == Some(m),
    decreases s.len() - k,
{
    if k < m {
        lemma_find_char_at_witness(s, c, k + 1, m);
    }
}

/// `s` with leading whitespace removed.
pub open spec fn trim_start(s: Seq<char>) -> Seq<char>
    decreases s.len(),
{
    if s.len() > 0 && is_ws_char(s[0]) {
        trim_start(s.drop_first())
    } else {
        s
    }
}

/// `s` with trailing whitespace removed.
pub open spec fn trim_end(s: Seq<char>) -> Seq<char>
    decreases s.len(),
{
    if s.len() > 0 && is_ws_char(s[s.len() - 1]) {
        trim_end(s.drop_last())
    } else {
        s
    }
}

/// `s` with whitespace removed from both ends.
pub open spec fn trimmed(s: Seq<char>) -> Seq<char> {
    trim_end(trim_start(s))
}

/// A line with one trailing carriage return removed.
pub open spec fn strip_cr(l: Seq<char>) -> Seq<char> {
    if l.len() > 0 && l[l.len() - 1] == '\r' {
        l.drop_last()
    } else {
        l
    }
}

/// The lines of `s`: maximal runs between newline characters, each with a
/// trailing carriage return removed.  The empty document has no lines.
pub open spec fn split_lines(s: Seq<char>) -> Seq<Seq<char>>
    decreases s.len(),
{
    if s.len() == 0 {
        Seq::empty()
    } else {
        match find_char_at(s, '\n', 0) {
            Some(i) => if 0 <= i < s.len() {
                seq![strip_cr(s.take(i))] + split_lines(s.skip(i + 1))
            } else {
                seq![strip_cr(s)]
            },
            None => seq![strip_cr(s)],
        }
    }
}

/// `needle` occurs in `hay` starting at position `i`.
pub open spec fn contains_at(hay: Seq<char>, needle: Seq<char>, i: int) -> bool {
    0 <= i && i + needle.len() <= hay.len() && hay.subrange(i, i + needle.len() as int)
        == needle
}

/// `needle` occurs somewhere in `hay` as a contiguous subsequence.
pub open spec fn contains_seq(hay: Seq<char>, needle: Seq<char>) -> bool {
    exists|i: int| contains_at(hay, needle, i)
}

/// `hay` with every non-overlapping occurrence of `pat` removed, scanning
/// left to right.  An empty pattern removes nothing.
pub open spec fn remove_all(hay: Seq<char>, pat: Seq<char>) -> Seq<char>
    decreases hay.len(),
{
    if pat.len() == 0 {
        hay
    } else if hay.len() < pat.len() {
        hay
    } else if hay.take(pat.len() as int) == pat {
        remove_all(hay.skip(pat.len() as int), pat)
    } else {
        seq![hay[0]] + remove_all(hay.drop_first(), pat)
    }
}

/// The views of a sequence of character vectors.
pub open spec fn views_of(ls: Seq<Vec<char>>) -> Seq<Seq<char>> {
    ls.map_values(|l: Vec<char>| l@)
}

/// The views of a sequence of strings.
pub open spec fn string_views(ls: Seq<String>) -> Seq<Seq<char>> {
    ls.map_values(|l: String| l@)
}

/// The characters of a string slice, in order.
pub fn str_to_chars(s: &str) -> (r: Vec<char>)
    ensures
        r@ == s@,
{
    let n: usize = s.unicode_len();
    let mut r: Vec<char> = Vec::new();
    let mut i: usize = 0;
    while i < n
        invariant
            n == s@.len(),
            0 <= i <= n,
            r@ == s@.take(i as int),
        decreases n - i,
    {
        r.push(s.get_char(i));
        i = i + 1;
        proof {
            assert(r@ =~= s@.take(i as int));
        }
    }
    proof {
        assert(s@.take(n as int) =~= s@);
    }
    r
}

/// Relies on `String::push`: appends one character to the string.
#[verifier::external_body]
fn push_char(s: &mut String, c: char)
    ensures
        final(s)@ == old(s)@.push(c),
{
    s.push(c);
}

/// A string holding exactly the characters of `v`.
pub fn chars_to_string(v: &Vec<char>) -> (r: String)
    ensures
        r@ == v@,
{
    let mut r = String::new();
    let mut i: usize = 0;
    while i < v.len()
        invariant
            0 <= i <= v.len(),
            r@ == v@.take(i as int),
        decreases v.len() - i,
    {
        push_char(&mut r, v[i]);
        i = i + 1;
        proof {
            assert(r@ =~= v@.take(i as int));
        }
    }
    proof {
        assert(v@.take(v.len() as int) =~= v@);
    }
    r
}

/// The characters of `v` from position `from` up to `to`.
pub fn copy_range(v: &Vec<char>, from: usize, to: usize) -> (r: Vec<char>)
    requires
        from <= to <= v.len(),
    ensures
        r@ == v@.subrange(from as int, to as int),
{
    let mut r: Vec<char> = Vec::new();
    let mut i: usize = from;
    while i < to
        invariant
            from <= i <= to <= v.len(),
            r@ == v@.subrange(from as int, i as int),
        decreases to - i,
    {
        r.push(v[i]);
        i = i + 1;
        proof {
            assert(r@ =~= v@.subrange(from as int, i as int));
        }
    }
    r
}

/// Whether `c` is a decimal digit, decided on the character's code point.
pub fn is_digit(c: char) -> (r: bool)
    ensures
        r == is_digit_char(c),
{
    let u = c as u32;
    48 <= u && u <= 57
}

/// `v` with whitespace removed from both ends.
pub fn trim_chars(v: &Vec<char>) -> (r: Vec<char>)
    ensures
        r@ == trimmed(v@),
{
    proof {
        assert(v@.skip(0) =~= v@);
    }
    let mut lo: usize = 0;
    while lo < v.len() && is_ws(v[lo])
        invariant
            0 <= lo <= v.len(),
            trim_start(v@) == trim_start(v@.skip(lo as int)),
        decreases v.len() - lo,
    {
        proof {
            assert(v@.skip(lo as int).drop_first() =~= v@.skip(lo as int + 1));
        }
        lo = lo + 1;
    }
    proof {
        assert(trim_start(v@.skip(lo as int)) == v@.skip(lo as int));
    }
    let mut hi: usize = v.len();
    while lo < hi && is_ws(v[hi - 1])
        invariant
            lo <= hi <= v.len(),
            trim_end(v@.skip(lo as int)) == trim_end(v@.subrange(lo as int, hi as int)),
        decreases hi,
    {
        proof {
            assert(v@.subrange(lo as int, hi as int).drop_last() =~= v@.subrange(
                lo as int,
                hi as int - 1,
            ));
        }
        hi = hi - 1;
    }
    proof {
        assert(trim_end(v@.subrange(lo as int, hi as int)) == v@.subrange(
            lo as int,
            hi as int,
        ));
    }
    copy_range(v, lo, hi)
}

/// Whether `needle` occurs in `hay` starting exactly at position `i`.
fn match_at(hay: &Vec<char>, i: usize, needle: &Vec<char>) -> (r: bool)
    requires
        i <= hay.len(),
        needle.len() <= hay.len() - i,
    ensures
        r == contains_at(hay@, needle@, i as int),
{
    let mut j: usize = 0;
    while j < needle.len()
        invariant
            0 <= j <= needle.len(),
            i + needle.len() <= hay.len(),
            forall|k: int| 0 <= k < j ==> hay@[i + k] == needle@[k],
        decreases needle.len() - j,
    {
        if hay[i + j] != needle[j] {
            proof {
                let ghost jj = j as int;
                assert(hay@.subrange(i as int, i + needle@.len())[jj] != needle@[jj]);
            }
            return false;
        }
        j = j + 1;
    }
    proof {
        assert(hay@.subrange(i as int, i + needle@.len()) =~= needle@);
    }
    true
}

/// Whether `needle` occurs anywhere in `hay`.
pub fn contains_chars(hay: &Vec<char>, needle: &Vec<char>) -> (r: bool)
    ensures
        r == contains_seq(hay@, needle@),
{
    if needle.len() == 0 {
        proof {
            assert(hay@.subrange(0, 0) =~= needle@);
            assert(contains_at(hay@, needle@, 0));
        }
        return true;
    }
    if needle.len() > hay.len() {
        proof {
            assert(forall|i: int| !contains_at(hay@, needle@, i));
        }
        return false;
    }
    let bound: usize = hay.len() - needle.len();
    let mut i: usize = 0;
    while i <= bound
        invariant
            0 <= i <= bound + 1,
            bound == hay.len() - needle.len(),
            0 < needle.len() <= hay.len(),
            forall|k: int| 0 <= k < i ==> !contains_at(hay@, needle@, k),
        decreases bound + 1 - i,
    {
        if match_at(hay, i, needle) {
            proof {
                assert(contains_at(hay@, needle@, i as int));
            }
            return true;
        }
        i = i + 1;
    }
    proof {
        assert(forall|k: int| k > bound ==> !contains_at(hay@, needle@, k));
    }
    false
}

/// `hay` with every non-overlapping occurrence of `pat` removed.
pub fn remove_all_chars(hay: &Vec<char>, pat: &Vec<char>) -> (r: Vec<char>)
    ensures
        r@ == remove_all(hay@, pat@),
{
    if pat.len() == 0 {
        return copy_range(hay, 0, hay.len());
    }
    let mut out: Vec<char> = Vec::new();
    let mut i: usize = 0;
    proof {
        assert(hay@.skip(0) =~= hay@);
        assert(Seq::<char>::empty() + remove_all(hay@, pat@) =~= remove_all(hay@, pat@));
    }
    while i < hay.len()
        invariant
            0 <= i <= hay.len(),
            pat.len() > 0,
            remove_all(hay@, pat@) == out@ + remove_all(hay@.skip(i as int), pat@),
        decreases hay.len() - i,
    {
        let ghost rest = hay@.skip(i as int);
        if pat.len() <= hay.len() - i && match_at(hay, i, pat) {
            proof {
                assert(rest.take(pat@.len() as int) =~= hay@.subrange(
                    i as int,
                    i + pat@.len(),
                ));
                assert(rest.skip(pat@.len() as int) =~= hay@.skip(i + pat@.len()));
            }
            i = i + pat.len();
        } else {
            proof {
                if rest.len() >= pat@.len() {
                    assert(rest.take(pat@.len() as int) =~= hay@.subrange(
                        i as int,
                        i + pat@.len(),
                    ));
                    assert(rest.drop_first() =~= hay@.skip(i as int + 1));
                    assert(remove_all(rest, pat@) == seq![hay@[i as int]] + remove_all(
                        hay@.skip(i as int + 1),
                        pat@,
                    ));
                } else {
                    assert(remove_all(rest, pat@) == rest);
                    assert(remove_all(hay@.skip(i as int + 1), pat@) == hay@.skip(
                        i as int + 1,
                    ));
                    assert(rest =~= seq![hay@[i as int]] + hay@.skip(i as int + 1));
                }
                assert(out@.push(hay@[i as int]) + remove_all(hay@.skip(i as int + 1), pat@)
                    =~= out@ + remove_all(rest, pat@));
            }
            out.push(hay[i]);
            i = i + 1;
        }
    }
    proof {
        assert(hay@.skip(hay@.len() as int) =~= Seq::<char>::empty());
        assert(remove_all(Seq::<char>::empty(), pat@) == Seq::<char>::empty());
        assert(out@ + Seq::<char>::empty() =~= out@);
    }
    out
}

/// Removes one trailing carriage return, if present.
fn strip_cr_vec(line: &mut Vec<char>)
    ensures
        final(line)@ == strip_cr(old(line)@),
{
    if line.len() > 0 {
        let n = line.len();
        if line[n - 1] == '\r' {
            line.pop();
            proof {
                assert(line@ =~= strip_cr(old(line)@));
            }
        }
    }
}

/// The lines of `v`, split on newline characters.
pub fn split_lines_chars(v: &Vec<char>) -> (r: Vec<Vec<char>>)
    ensures
        views_of(r@) == split_lines(v@),
{
    let mut out: Vec<Vec<char>> = Vec::new();
    let mut start: usize = 0;
    let mut i: usize = 0;
    proof {
        assert(v@.skip(0) =~= v@);
        assert(views_of(out@) + split_lines(v@) =~= split_lines(v@));
    }
    while i < v.len()
        invariant
            0 <= start <= i <= v.len(),
            views_of(out@) + split_lines(v@.skip(start as int)) == split_lines(v@),
            forall|k: int| start <= k < i ==> v@[k] != '\n',
        decreases v.len() - i,
    {
        if v[i] == '\n' {
            let mut line = copy_range(v, start, i);
            strip_cr_vec(&mut line);
            proof {
                let rest = v@.skip(start as int);
                assert(rest[i - start] == v@[i as int]);
                assert(forall|j: int| 0 <= j < i - start ==> rest[j] == v@[start + j]);
                lemma_find_char_at_witness(rest, '\n', 0, i - start);
                assert(rest.take(i - start) =~= v@.subrange(start as int, i as int));
                assert(rest.skip(i - start + 1) =~= v@.skip(i as int + 1));
                assert(split_lines(rest) == seq![line@] + split_lines(v@.skip(i as int + 1)));
                assert(views_of(out@.push(line)) =~= views_of(out@) + seq![line@]);
                assert((views_of(out@) + seq![line@]) + split_lines(v@.skip(i as int + 1))
                    =~= views_of(out@) + (seq![line@] + split_lines(v@.skip(i as int + 1))));
            }
            out.push(line);
            start = i + 1;
        }
        i = i + 1;
    }
    if start < v.len() {
        let mut line = copy_range(v, start, v.len());
        strip_cr_vec(&mut line);
        proof {
            let rest = v@.skip(start as int);
            assert(forall|j: int| 0 <= j < rest.len() ==> rest[j] == v@[start + j]);
            lemma_find_char_at(rest, '\n', 0);
            assert(find_char_at(rest, '\n', 0) is None);
            assert(rest =~= v@.subrange(start as int, v@.len() as int));
            assert(split_lines(rest) == seq![line@]);
            assert(views_of(out@.push(line)) =~= views_of(out@) + seq![line@]);
        }
        out.push(line);
    } else {
        proof {
            assert(v@.skip(start as int) =~= Seq::<char>::empty());
            assert(views_of(out@) + split_lines(Seq::<char>::empty()) =~= views_of(out@));
        }
    }
    out
}

/// Whether `c` is one of the whitespace characters `trimmed` strips.
fn is_ws(c: char) -> (r: bool)
    ensures
        r == is_ws_char(c),
{
    c == ' ' || c == '\t' || c == '\n' || c == '\r' || c == '\x0c'
}

/// Index of the first occurrence of `c` in `v` at or after `from`.
pub fn find_from(v: &Vec<char>, c: char, from: usize) -> (r: Option<usize>)
    requires
        from <= v.len(),
    ensures
        match r {
            Some(i) => from <= i < v.len() && find_char_at(v@, c, from as int) == Some(
                i as int,
            ),
            None => find_char_at(v@, c, from as int) is None,
        },
{
    let mut i: usize = from;
    while i < v.len()
        invariant
            from <= i <= v.len(),
            find_char_at(v@, c, from as int) == find_char_at(v@, c, i as int),
        decreases v.len() - i,
    {
        if v[i] == c {
            return Some(i);
        }
        i = i + 1;
    }
    None
}

} // verus!
