//! The action filter: selects, in order, every line of the text that
//! mentions a player's name as a plain substring.  No word-boundary or case
//! normalisation is applied; a name that is a substring of another name
//! matches that name's lines too.

use vstd::prelude::*;
use crate::text::{
    contains_seq, trimmed, split_lines, views_of, string_views, str_to_chars, trim_chars,
    split_lines_chars, contains_chars, chars_to_string,
};

verus! {

/// The lines among `lines` that contain `name`, in their original order,
/// duplicates kept.
pub open spec fn filter_lines(lines: Seq<Seq<char>>, name: Seq<char>) -> Seq<Seq<char>>
    decreases lines.len(),
{
    if lines.len() == 0 {
        Seq::empty()
    } else {
        filter_lines(lines.drop_last(), name) + if contains_seq(lines[lines.len() - 1], name) {
            seq![lines[lines.len() - 1]]
        } else {
            Seq::empty()
        }
    }
}

/// The action lines of the text for a given name.
pub open spec fn spec_actions(t: Seq<char>, name: Seq<char>) -> Seq<Seq<char>> {
    filter_lines(split_lines(trimmed(t)), name)
}

/// Filtering distributes over concatenation of line sequences.
proof fn lemma_filter_lines_add(a: Seq<Seq<char>>, b: Seq<Seq<char>>, name: Seq<char>)
    ensures
        filter_lines(a + b, name) == filter_lines(a, name) + filter_lines(b, name),
    decreases b.len(),
{
    if b.len() == 0 {
        assert(a + b =~= a);
        assert(filter_lines(a, name) + filter_lines(b, name) =~= filter_lines(a, name));
    } else {
        lemma_filter_lines_add(a, b.drop_last(), name);
        let ab = a + b;
        assert(ab.drop_last() =~= a + b.drop_last());
        assert(ab[ab.len() - 1] == b[b.len() - 1]);
        if contains_seq(b[b.len() - 1], name) {
            assert(filter_lines(ab, name) =~= filter_lines(a, name) + filter_lines(b, name));
        } else {
            assert(filter_lines(ab, name) =~= filter_lines(a, name) + filter_lines(b, name));
        }
    }
}

/// Filtering the same lines for the same name twice gives exactly the
/// lines one filtering gives, in the same order: the action filter is
/// idempotent and never reorders what it keeps.
pub proof fn lemma_actions_idempotent(lines: Seq<Seq<char>>, name: Seq<char>)
    ensures
        filter_lines(filter_lines(lines, name), name) == filter_lines(lines, name),
    decreases lines.len(),
{
    if lines.len() == 0 {
    } else {
        lemma_actions_idempotent(lines.drop_last(), name);
        let last = lines[lines.len() - 1];
        let fprev = filter_lines(lines.drop_last(), name);
        if contains_seq(last, name) {
            lemma_filter_lines_add(fprev, seq![last], name);
            let single = seq![last];
            assert(single.drop_last() =~= Seq::<Seq<char>>::empty());
            assert(filter_lines(Seq::<Seq<char>>::empty(), name) == Seq::<Seq<char>>::empty());
            assert(single[single.len() - 1] == last);
            assert(filter_lines(single, name) == filter_lines(single.drop_last(), name) + seq![
                last,
            ]);
            assert(filter_lines(single, name) =~= single);
            assert(filter_lines(filter_lines(lines, name), name) =~= filter_lines(lines, name));
        } else {
            assert(filter_lines(lines, name) =~= fprev);
        }
    }
}

/// `a` can be obtained from `b` by deleting elements, keeping the rest in
/// their original relative order.
pub open spec fn is_subseq_of(a: Seq<Seq<char>>, b: Seq<Seq<char>>) -> bool
    decreases a.len() + b.len(),
{
    if a.len() == 0 {
        true
    } else if b.len() == 0 {
        false
    } else if a[a.len() - 1] == b[b.len() - 1] {
        is_subseq_of(a.drop_last(), b.drop_last()) || is_subseq_of(a, b.drop_last())
    } else {
        is_subseq_of(a, b.drop_last())
    }
}

/// A subsequence of `b` is also one of `b` extended by one element.
proof fn lemma_subseq_push(a: Seq<Seq<char>>, b: Seq<Seq<char>>, x: Seq<char>)
    requires
        is_subseq_of(a, b),
    ensures
        is_subseq_of(a, b.push(x)),
{
    assert(b.push(x).drop_last() =~= b);
    assert(b.push(x).len() > 0);
}

/// The filter never reorders: what it keeps is a subsequence of the lines
/// it was given, each kept line standing where its original stood relative
/// to the others.
pub proof fn lemma_actions_preserve_order(lines: Seq<Seq<char>>, name: Seq<char>)
    ensures
        is_subseq_of(filter_lines(lines, name), lines),
    decreases lines.len(),
{
    if lines.len() > 0 {
        lemma_actions_preserve_order(lines.drop_last(), name);
        let last = lines[lines.len() - 1];
        let fprev = filter_lines(lines.drop_last(), name);
        if contains_seq(last, name) {
            let f = fprev + seq![last];
            assert(f.drop_last() =~= fprev);
            assert(f[f.len() - 1] == last);
            assert(lines.drop_last().push(last) =~= lines);
        } else {
            assert(filter_lines(lines, name) =~= fprev);
            lemma_subseq_push(fprev, lines.drop_last(), last);
            assert(lines.drop_last().push(last) =~= lines);
        }
    }
}

/// The lines of the text that mention `player_name`, in original order.
pub fn actions(s: &str, player_name: &str) -> (r: Vec<String>)
    ensures
        string_views(r@) == spec_actions(s@, player_name@),
{
    let chars = str_to_chars(s);
    let t = trim_chars(&chars);
    let lines = split_lines_chars(&t);
    let name = str_to_chars(player_name);
    let filtered = filter_lines_chars(&lines, &name);
    let mut out: Vec<String> = Vec::new();
    let mut i: usize = 0;
    proof {
        assert(string_views(out@) =~= views_of(filtered@).take(0));
    }
    while i < filtered.len()
        invariant
            0 <= i <= filtered@.len(),
            string_views(out@) == views_of(filtered@).take(i as int),
        decreases filtered@.len() - i,
    {
        let line = chars_to_string(&filtered[i]);
        let ghost prev = out@;
        out.push(line);
        proof {
            assert(string_views(out@) =~= string_views(prev).push(filtered@[i as int]@));
            assert(views_of(filtered@).take(i as int + 1) =~= views_of(filtered@).take(
                i as int,
            ).push(filtered@[i as int]@));
        }
        i = i + 1;
    }
    proof {
        assert(views_of(filtered@).take(filtered@.len() as int) =~= views_of(filtered@));
    }
    out
}

/// The lines among `lines` that contain `name`, as character vectors.
pub fn filter_lines_chars(lines: &Vec<Vec<char>>, name: &Vec<char>) -> (r: Vec<Vec<char>>)
    ensures
        views_of(r@) == filter_lines(views_of(lines@), name@),
{
    let ghost lv = views_of(lines@);
    let mut out: Vec<Vec<char>> = Vec::new();
    let mut i: usize = 0;
    proof {
        assert(lv.take(0) =~= Seq::<Seq<char>>::empty());
        assert(views_of(out@) =~= filter_lines(lv.take(0), name@));
    }
    while i < lines.len()
        invariant
            0 <= i <= lines@.len(),
            lv == views_of(lines@),
            views_of(out@) == filter_lines(lv.take(i as int), name@),
        decreases lines@.len() - i,
    {
        proof {
            assert(lv.take(i as int + 1).drop_last() =~= lv.take(i as int));
            assert(lv.take(i as int + 1)[i as int] == lines@[i as int]@);
        }
        if contains_chars(&lines[i], name) {
            let ghost prev = out@;
            out.push(copy_line(&lines[i]));
            proof {
                assert(views_of(out@) =~= views_of(prev) + seq![lines@[i as int]@]);
            }
        } else {
            proof {
                assert(filter_lines(lv.take(i as int + 1), name@) =~= filter_lines(
                    lv.take(i as int),
                    name@,
                ));
            }
        }
        i = i + 1;
    }
    proof {
        assert(lv.take(lines@.len() as int) =~= lv);
    }
    out
}

/// A copy of one line.
fn copy_line(l: &Vec<char>) -> (r: Vec<char>)
    ensures
        r@ == l@,
{
    let r = crate::text::copy_range(l, 0, l.len());
    proof {
        assert(l@.subrange(0, l@.len() as int) =~= l@);
    }
    r
}

} // verus!
