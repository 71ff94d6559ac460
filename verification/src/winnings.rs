//! The winnings calculator: reduces a player's action lines to a signed net
//! chip result.  If the last sanitized action line carries a number, that
//! number is the collected pot and is returned directly; otherwise the hand
//! is a loss, computed by walking every action line but the first and
//! subtracting each scanned amount from the starting stack.

use vstd::prelude::*;
use crate::text::{remove_all, views_of, str_to_chars, trim_chars, split_lines_chars,
    remove_all_chars};
use crate::actions::{spec_actions, filter_lines_chars};
use crate::player::{Player, PlayerV};
use crate::scan::{scan_spec, scan_chars};

verus! {

/// An action line with every occurrence of the player's name, then of the
/// player's seat label, removed, so that the numbers left are chip amounts.
pub open spec fn sanitize(l: Seq<char>, name: Seq<char>, seat: Seq<char>) -> Seq<char> {
    remove_all(remove_all(l, name), seat)
}

/// The player's action lines, each sanitized.
pub open spec fn sanitized_actions(t: Seq<char>, p: PlayerV) -> Seq<Seq<char>> {
    spec_actions(t, p.name).map_values(|l: Seq<char>| sanitize(l, p.name, p.seat))
}

/// Walks the lines in order, subtracting each line's scanned number from
/// the running stack; a line without a number deducts nothing.
pub open spec fn fold_deduct(lines: Seq<Seq<char>>, acc: int) -> int
    decreases lines.len(),
{
    if lines.len() == 0 {
        acc
    } else {
        let a2 = match scan_spec(lines[0]) {
            Ok(v) => acc - v,
            Err(_) => acc,
        };
        fold_deduct(lines.drop_first(), a2)
    }
}

/// The deduction walk never increases the stack.
pub proof fn lemma_fold_deduct_le(lines: Seq<Seq<char>>, acc: int)
    ensures
        fold_deduct(lines, acc) <= acc,
    decreases lines.len(),
{
    if lines.len() > 0 {
        let a2 = match scan_spec(lines[0]) {
            Ok(v) => acc - v,
            Err(_) => acc,
        };
        lemma_fold_deduct_le(lines.drop_first(), a2);
    }
}

/// What the calculator may be asked: the player has at least one action
/// line, a collected amount fits the signed result, and a losing hand's
/// deduction walk stays within the starting stack and the machine range.
pub open spec fn winnings_pre(t: Seq<char>, p: PlayerV) -> bool {
    let sans = sanitized_actions(t, p);
    &&& sans.len() > 0
    &&& match scan_spec(sans[sans.len() - 1]) {
        Ok(w) => w <= isize::MAX,
        Err(_) => p.chips <= isize::MAX && fold_deduct(sans.skip(1), p.chips as int) >= 0,
    }
}

/// The signed net result: the number on the last sanitized action line if
/// one scans (a collected pot), else the stack after deducting every later
/// line's number minus the original stack (a loss, at most zero).
pub open spec fn spec_winnings(t: Seq<char>, p: PlayerV) -> int {
    let sans = sanitized_actions(t, p);
    match scan_spec(sans[sans.len() - 1]) {
        Ok(w) => w as int,
        Err(_) => fold_deduct(sans.skip(1), p.chips as int) - p.chips,
    }
}

/// The net chip change of `player` over the hand recorded in `s`.
pub fn winnings(s: &str, player: Player) -> (r: isize)
    requires
        winnings_pre(s@, player@),
    ensures
        r as int == spec_winnings(s@, player@),
{
    let chars = str_to_chars(s);
    let t = trim_chars(&chars);
    let lines = split_lines_chars(&t);
    let name = str_to_chars(player.name.as_str());
    let acts = filter_lines_chars(&lines, &name);
    let seat = str_to_chars(player.seat.as_str());
    let ghost sv = sanitized_actions(s@, player@);
    let mut sans: Vec<Vec<char>> = Vec::new();
    let mut i: usize = 0;
    proof {
        assert(views_of(sans@) =~= sv.take(0));
    }
    while i < acts.len()
        invariant
            0 <= i <= acts@.len(),
            views_of(acts@) == spec_actions(s@, player@.name),
            sv == sanitized_actions(s@, player@),
            name@ == player@.name,
            seat@ == player@.seat,
            sv.len() == acts@.len(),
            views_of(sans@) == sv.take(i as int),
        decreases acts@.len() - i,
    {
        let cleaned = remove_all_chars(&remove_all_chars(&acts[i], &name), &seat);
        let ghost prev = sans@;
        sans.push(cleaned);
        proof {
            assert(cleaned@ == sv[i as int]);
            assert(views_of(sans@) =~= views_of(prev).push(cleaned@));
            assert(sv.take(i as int + 1) =~= sv.take(i as int).push(sv[i as int]));
        }
        i = i + 1;
    }
    proof {
        assert(sv.take(sv.len() as int) =~= sv);
    }
    let n = sans.len();
    match scan_chars(&sans[n - 1]) {
        Ok(w) => w as isize,
        Err(_) => {
            let mut acc: usize = player.chips;
            let mut j: usize = 1;
            while j < n
                invariant
                    1 <= j <= n,
                    n == sv.len(),
                    views_of(sans@) == sv,
                    sans@.len() == n,
                    scan_spec(sv[sv.len() - 1]) is Err,
                    player@.chips <= isize::MAX,
                    acc <= player@.chips,
                    fold_deduct(sv.skip(j as int), acc as int) == fold_deduct(
                        sv.skip(1),
                        player@.chips as int,
                    ),
                    fold_deduct(sv.skip(1), player@.chips as int) >= 0,
                decreases n - j,
            {
                proof {
                    assert(sv.skip(j as int).drop_first() =~= sv.skip(j as int + 1));
                    assert(sv.skip(j as int)[0] == sv[j as int]);
                }
                match scan_chars(&sans[j]) {
                    Ok(v) => {
                        proof {
                            lemma_fold_deduct_le(sv.skip(j as int + 1), acc - v);
                        }
                        acc = acc - v;
                    },
                    Err(_) => {},
                }
                j = j + 1;
            }
            proof {
                assert(sv.skip(n as int) =~= Seq::<Seq<char>>::empty());
            }
            acc as isize - (player.chips as isize)
        },
    }
}

} // verus!
