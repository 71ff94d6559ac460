//! Seated players: the seat counter that reads the declared table capacity
//! from the last line, and the roster parser that turns seat-declaration
//! lines into `Player` records.

use vstd::prelude::*;
use crate::text::{
    find_char_at, is_digit_char, digit_val, trimmed, split_lines, views_of, str_to_chars,
    trim_chars, split_lines_chars, find_from, is_digit, copy_range, chars_to_string,
};
use crate::scan::{scan_spec, scan_chars};

verus! {

/// One seated participant of the hand.
///
/// `seat` is the raw text before the colon of the seat-declaration line,
/// `name` the display name between the colon and the stack parenthesis, and
/// `chips` the starting stack.
#[derive(Debug)]
pub struct Player {
    pub seat: String,
    pub name: String,
    pub chips: usize,
}

/// The mathematical shadow of a `Player`: its fields as sequences and a
/// nonnegative stack.
pub ghost struct PlayerV {
    pub seat: Seq<char>,
    pub name: Seq<char>,
    pub chips: nat,
}

impl View for Player {
    type V = PlayerV;

    open spec fn view(&self) -> PlayerV {
        PlayerV { seat: self.seat@, name: self.name@, chips: self.chips as nat }
    }
}

/// The view of an optional player.
pub open spec fn player_opt_view(r: Option<Player>) -> Option<PlayerV> {
    match r {
        Some(p) => Some(p@),
        None => None,
    }
}

/// The view of an optional roster.
pub open spec fn roster_view(r: Option<Vec<Player>>) -> Option<Seq<PlayerV>> {
    match r {
        Some(v) => Some(v@.map_values(|p: Player| p@)),
        None => None,
    }
}

/// The player a seat-declaration line describes, if the line is well
/// formed: the seat label ends at the first colon, the name sits strictly
/// between one character after the colon and one character before the first
/// opening parenthesis at or after it, and the stack is the number scanned
/// from the parenthesis onward.  A line without both delimiters, with no
/// room for a name, or without a readable number is dropped.
pub open spec fn spec_player(l: Seq<char>) -> Option<PlayerV> {
    match find_char_at(l, ':', 0) {
        None => None,
        Some(ci) => match find_char_at(l, '(', ci) {
            None => None,
            Some(ei) => if ei < ci + 3 {
                None
            } else {
                match scan_spec(l.skip(ei)) {
                    Ok(chips) => Some(
                        PlayerV {
                            seat: l.take(ci),
                            name: l.subrange(ci + 2, ei - 1),
                            chips: chips as nat,
                        },
                    ),
                    Err(_) => None,
                }
            },
        },
    }
}

/// The value of the first decimal digit character at or after position `k`.
pub open spec fn first_digit_at(s: Seq<char>, k: int) -> Option<u32>
    decreases s.len() - k,
{
    if !(0 <= k < s.len()) {
        None
    } else if is_digit_char(s[k]) {
        Some(digit_val(s[k]) as u32)
    } else {
        first_digit_at(s, k + 1)
    }
}

/// The declared table capacity: the value of the first digit character
/// before the first colon of the last line of the trimmed text.  Absent if
/// the text has no lines, the last line has no colon, or no digit precedes
/// the colon.
pub open spec fn spec_player_count(t: Seq<char>) -> Option<u32> {
    let ls = split_lines(trimmed(t));
    if ls.len() == 0 {
        None
    } else {
        let last = ls[ls.len() - 1];
        match find_char_at(last, ':', 0) {
            None => None,
            Some(ci) => first_digit_at(last.take(ci), 0),
        }
    }
}

/// The candidate seat-declaration lines: at most `n` lines after the first
/// two lines of the trimmed text.
pub open spec fn candidate_lines(t: Seq<char>, n: int) -> Seq<Seq<char>> {
    let ls = split_lines(trimmed(t));
    if ls.len() <= 2 {
        Seq::empty()
    } else {
        let rest = ls.skip(2);
        if n <= rest.len() {
            rest.take(n)
        } else {
            rest
        }
    }
}

/// The roster a sequence of candidate lines yields: the players of the
/// lines that parse, in line order, the rest silently dropped.
pub open spec fn roster_of(lines: Seq<Seq<char>>) -> Seq<PlayerV>
    decreases lines.len(),
{
    if lines.len() == 0 {
        Seq::empty()
    } else {
        roster_of(lines.drop_last()) + match spec_player(lines[lines.len() - 1]) {
            Some(p) => seq![p],
            None => Seq::empty(),
        }
    }
}

/// The roster of the whole text: absent exactly when the seat count is.
pub open spec fn spec_players(t: Seq<char>) -> Option<Seq<PlayerV>> {
    match spec_player_count(t) {
        None => None,
        Some(n) => Some(roster_of(candidate_lines(t, n as int))),
    }
}

/// Parses one candidate seat-declaration line.
fn player_from_chars(l: &Vec<char>) -> (r: Option<Player>)
    ensures
        player_opt_view(r) == spec_player(l@),
{
    let ci = match find_from(l, ':', 0) {
        Some(ci) => ci,
        None => {
            return None;
        },
    };
    let ei = match find_from(l, '(', ci) {
        Some(ei) => ei,
        None => {
            return None;
        },
    };
    if ei - ci < 3 {
        return None;
    }
    let tail = copy_range(l, ei, l.len());
    proof {
        assert(tail@ =~= l@.skip(ei as int));
    }
    let chips = match scan_chars(&tail) {
        Ok(chips) => chips,
        Err(_) => {
            return None;
        },
    };
    let seat_chars = copy_range(l, 0, ci);
    let name_chars = copy_range(l, ci + 2, ei - 1);
    let p = Player {
        seat: chars_to_string(&seat_chars),
        name: chars_to_string(&name_chars),
        chips,
    };
    proof {
        assert(p@.seat =~= l@.take(ci as int));
    }
    Some(p)
}

impl Player {
    /// The player a seat-declaration line describes, or nothing for a
    /// malformed line.
    pub fn from_str(s: &str) -> (r: Option<Player>)
        ensures
            player_opt_view(r) == spec_player(s@),
    {
        let chars = str_to_chars(s);
        player_from_chars(&chars)
    }
}

/// The declared table capacity read from the last line of the text, or
/// nothing if the text is empty, its last line has no colon, or no digit
/// stands before the colon.
pub fn player_count(s: &str) -> (r: Option<u32>)
    ensures
        r == spec_player_count(s@),
{
    let chars = str_to_chars(s);
    let t = trim_chars(&chars);
    let lines = split_lines_chars(&t);
    if lines.len() == 0 {
        return None;
    }
    let last = &lines[lines.len() - 1];
    proof {
        assert(views_of(lines@)[lines@.len() - 1] == last@);
    }
    let ci = match find_from(last, ':', 0) {
        Some(ci) => ci,
        None => {
            return None;
        },
    };
    let ghost pre = last@.take(ci as int);
    proof {
        assert(views_of(lines@).len() == lines@.len());
        assert(spec_player_count(s@) == first_digit_at(pre, 0));
    }
    let mut k: usize = 0;
    while k < ci
        invariant
            0 <= k <= ci < last@.len(),
            pre == last@.take(ci as int),
            first_digit_at(pre, 0) == first_digit_at(pre, k as int),
            spec_player_count(s@) == first_digit_at(pre, 0),
        decreases ci - k,
    {
        proof {
            assert(pre[k as int] == last@[k as int]);
        }
        if is_digit(last[k]) {
            let u = last[k] as u32;
            proof {
                assert(first_digit_at(pre, k as int) == Some(digit_val(pre[k as int]) as u32));
                assert(u - 48 == digit_val(pre[k as int]) as u32);
            }
            return Some(u - 48);
        }
        k = k + 1;
    }
    proof {
        assert(first_digit_at(pre, ci as int) is None);
    }
    None
}

/// The roster of the text: the players of the candidate seat lines that
/// parse, in line order.  Absent exactly when the seat count is absent, and
/// never longer than the declared capacity.
pub fn players(s: &str) -> (r: Option<Vec<Player>>)
    ensures
        roster_view(r) == spec_players(s@),
        r is Some <==> spec_player_count(s@) is Some,
        match (r, spec_player_count(s@)) {
            (Some(v), Some(n)) => v@.len() <= n,
            _ => true,
        },
{
    let n = match player_count(s) {
        Some(n) => n as usize,
        None => {
            return None;
        },
    };
    let chars = str_to_chars(s);
    let t = trim_chars(&chars);
    let lines = split_lines_chars(&t);
    let ghost cands = candidate_lines(s@, n as int);
    let start: usize = 2;
    let stop: usize = if lines.len() <= start {
        start
    } else if n <= lines.len() - start {
        start + n
    } else {
        lines.len()
    };
    proof {
        if lines@.len() > 2 {
            assert(views_of(lines@).skip(2) =~= views_of(lines@.skip(2)));
            if n <= lines@.len() - 2 {
                assert(cands =~= views_of(lines@.skip(2)).take(n as int));
            } else {
                assert(cands =~= views_of(lines@.skip(2)));
            }
        }
        assert(cands.take(0) =~= Seq::<Seq<char>>::empty());
    }
    let mut out: Vec<Player> = Vec::new();
    let mut i: usize = start;
    proof {
        assert(out@.map_values(|p: Player| p@) =~= Seq::<PlayerV>::empty());
    }
    while i < stop
        invariant
            start == 2,
            start <= i <= stop,
            stop - start <= n,
            lines@.len() > 2 ==> stop <= lines@.len() && cands.len() == stop - start,
            lines@.len() <= 2 ==> stop == start && cands.len() == 0,
            forall|j: int| 0 <= j < cands.len() ==> cands[j] == lines@[2 + j]@,
            out@.map_values(|p: Player| p@) == roster_of(cands.take(i - start)),
        decreases stop - i,
    {
        let ghost done = i - start;
        proof {
            assert(cands.take(done + 1).drop_last() =~= cands.take(done));
            assert(cands.take(done + 1)[done] == lines@[i as int]@);
        }
        match player_from_chars(&lines[i]) {
            Some(p) => {
                proof {
                    assert(out@.push(p).map_values(|q: Player| q@) =~= out@.map_values(
                        |q: Player| q@,
                    ).push(p@));
                    assert(roster_of(cands.take(done + 1)) =~= roster_of(cands.take(done)).push(
                        p@,
                    ));
                }
                out.push(p);
            },
            None => {
                proof {
                    assert(roster_of(cands.take(done + 1)) =~= roster_of(cands.take(done)));
                }
            },
        }
        i = i + 1;
    }
    proof {
        assert(cands.take(cands.len() as int) =~= cands);
        lemma_roster_len(cands);
    }
    Some(out)
}

/// A text with no lines, or whose last line carries no colon, has no seat
/// count: the seat counter returns absence rather than guessing.
pub proof fn lemma_seat_count_needs_colon(t: Seq<char>)
    requires
        ({
            let ls = split_lines(trimmed(t));
            ls.len() == 0 || find_char_at(ls[ls.len() - 1], ':', 0) is None
        }),
    ensures
        spec_player_count(t) is None,
{
}

/// A roster never outgrows its candidate lines.
pub proof fn lemma_roster_len(lines: Seq<Seq<char>>)
    ensures
        roster_of(lines).len() <= lines.len(),
    decreases lines.len(),
{
    if lines.len() > 0 {
        lemma_roster_len(lines.drop_last());
    }
}

/// Every roster entry is the successful parse of one of the candidate
/// lines: a line whose parse fails contributes no player.
pub proof fn lemma_roster_only_parsed(lines: Seq<Seq<char>>)
    ensures
        forall|j: int|
            0 <= j < roster_of(lines).len() ==> exists|i: int|
                0 <= i < lines.len() && spec_player(lines[i]) == Some(
                    #[trigger] roster_of(lines)[j],
                ),
    decreases lines.len(),
{
    if lines.len() > 0 {
        lemma_roster_only_parsed(lines.drop_last());
        let r = roster_of(lines);
        let rp = roster_of(lines.drop_last());
        assert forall|j: int| 0 <= j < r.len() implies exists|i: int|
            0 <= i < lines.len() && spec_player(lines[i]) == Some(#[trigger] r[j]) by {
            if j < rp.len() {
                let i = choose|i: int|
                    0 <= i < lines.drop_last().len() && spec_player(lines.drop_last()[i])
                        == Some(rp[j]);
                assert(lines[i] == lines.drop_last()[i]);
                assert(spec_player(lines[i]) == Some(r[j]));
            } else {
                let i = lines.len() - 1;
                assert(spec_player(lines[i]) == Some(r[j]));
            }
        }
    }
}

/// Dropping the lines that fail to parse leaves the roster unchanged:
/// failed lines influence neither the surviving players nor their order.
pub proof fn lemma_roster_skips_failures(lines: Seq<Seq<char>>)
    ensures
        roster_of(lines) == roster_of(lines.filter(|l: Seq<char>| spec_player(l) is Some)),
    decreases lines.len(),
{
    reveal(Seq::filter);
    let pred = |l: Seq<char>| spec_player(l) is Some;
    if lines.len() > 0 {
        lemma_roster_skips_failures(lines.drop_last());
        let last = lines[lines.len() - 1];
        assert(lines.filter(pred) == if pred(last) {
            lines.drop_last().filter(pred).push(last)
        } else {
            lines.drop_last().filter(pred)
        });
        if pred(last) {
            let f = lines.drop_last().filter(pred).push(last);
            assert(f.drop_last() =~= lines.drop_last().filter(pred));
            assert(roster_of(f) == roster_of(f.drop_last()) + seq![spec_player(last)->Some_0]);
            assert(roster_of(lines) =~= roster_of(f));
        } else {
            assert(roster_of(lines) =~= roster_of(lines.drop_last()));
        }
    } else {
        assert(lines.filter(pred) =~= lines);
    }
}

} // verus!
