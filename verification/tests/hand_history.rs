use kadet::{actions, player_count, players, winnings, Limits, MaxSize, Player, Poker, Variant};

const TEST: &str = "PokerStars Hand #237451615499: Tournament #3443583345, $0.91+$0.09 USD Hold'em No Limit - Level IX (200/400) - 2022/07/19 12:45:55 EET [2022/07/19 5:45:55 ET]
Table '3443583345 2' 9-max Seat #5 is the button
Seat 1: lennart65632 (12354 in chips)
Seat 2: DENbarcelona (8432 in chips)
Seat 3: doppelkorn63 (4728 in chips)
Seat 4: 12blackartus (8984 in chips)
Seat 5: Cargat (4895 in chips)
Seat 6: Dol Cheep (9285 in chips)
Seat 7: lolo011274 (4663 in chips)
Seat 8: johnnyjohnM (3213 in chips)
Seat 9: kahoona1092 (10946 in chips)
lennart65632: posts the ante 25
DENbarcelona: posts the ante 25
doppelkorn63: posts the ante 25
12blackartus: posts the ante 25
Cargat: posts the ante 25
Dol Cheep: posts the ante 25
lolo011274: posts the ante 25
johnnyjohnM: posts the ante 25
kahoona1092: posts the ante 25
Dol Cheep: posts small blind 200
lolo011274: posts big blind 400
*** HOLE CARDS ***
Dealt to Dol Cheep [Kh Ah]
johnnyjohnM: folds
kahoona1092: raises 1225 to 1625
lennart65632: calls 1625
DENbarcelona: folds
doppelkorn63: folds
12blackartus: folds
Cargat: folds
Dol Cheep: calls 1425
lolo011274: folds
*** FLOP *** [9h 5c 3h]
Dol Cheep: checks
kahoona1092: checks
lennart65632: bets 5500
Dol Cheep: raises 2135 to 7635 and is all-in
kahoona1092: folds
lennart65632: calls 2135
*** TURN *** [9h 5c 3h] [9c]
*** RIVER *** [9h 5c 3h 9c] [Js]
*** SHOW DOWN ***
Dol Cheep: shows [Kh Ah] (a pair of Nines)
lennart65632: shows [5s Ad] (two pair, Nines and Fives)
lennart65632 collected 20770 from pot
*** SUMMARY ***
Total pot 20770 | Rake 0
Board [9h 5c 3h 9c Js]
Seat 1: lennart65632 showed [5s Ad] and won (20770) with two pair, Nines and Fives
Seat 2: DENbarcelona folded before Flop (didn't bet)
Seat 3: doppelkorn63 folded before Flop (didn't bet)
Seat 4: 12blackartus folded before Flop (didn't bet)
Seat 5: Cargat (button) folded before Flop (didn't bet)
Seat 6: Dol Cheep (small blind) showed [Kh Ah] and lost with a pair of Nines
Seat 7: lolo011274 (big blind) folded before Flop
Seat 8: johnnyjohnM folded before Flop (didn't bet)
Seat 9: kahoona1092 folded on the Flop";

#[test]
fn poker_test() {
    let roster = players(TEST).unwrap();
    assert_eq!(roster.len(), 9);

    let pcount = player_count(TEST).unwrap() as usize;
    assert_eq!(pcount, 9);

    let poker = Poker {
        variant: Variant::HoldEm,
        limits: Limits::NoLimit,
        table_size: MaxSize::Nine(Default::default()),
    };

    println!("{:?}", poker);
}

#[test]
fn player_count_test() {
    assert_eq!(player_count(TEST), Some(9));
}

#[test]
fn players_test() {
    let roster = players(TEST).unwrap();
    println!("{:?}", roster);
    assert_eq!(roster.len(), 9);
    assert_eq!(roster[0].seat, "Seat 1");
    assert_eq!(roster[0].name, "lennart65632");
    assert_eq!(roster[0].chips, 12354);
    assert_eq!(roster[5].seat, "Seat 6");
    assert_eq!(roster[5].name, "Dol Cheep");
    assert_eq!(roster[5].chips, 9285);
    assert_eq!(roster[8].name, "kahoona1092");
    assert_eq!(roster[8].chips, 10946);
}

#[test]
fn action_test() {
    let acts = actions(TEST, "Dol Cheep");
    println!("{:?}", acts);
    assert_eq!(acts.len(), 9);
    for line in &acts {
        assert!(line.contains("Dol Cheep"));
    }
    assert_eq!(acts[0], "Seat 6: Dol Cheep (9285 in chips)");
    assert_eq!(acts[8], "Seat 6: Dol Cheep (small blind) showed [Kh Ah] and lost with a pair of Nines");
}

#[test]
fn winnings_test() {
    let roster = players(TEST).unwrap();
    let mut results = Vec::new();
    for p in roster {
        let name = p.name.clone();
        let w = winnings(TEST, p);
        println!("{} {}", name, w);
        results.push((name, w));
    }
    assert_eq!(results[0], ("lennart65632".to_string(), 20770));
    assert_eq!(results[1], ("DENbarcelona".to_string(), -25));
    assert_eq!(results[2], ("doppelkorn63".to_string(), -25));
    assert_eq!(results[3], ("12blackartus".to_string(), -25));
    assert_eq!(results[4], ("Cargat".to_string(), -25));
    assert_eq!(results[5], ("Dol Cheep".to_string(), -9285));
    assert_eq!(results[6], ("lolo011274".to_string(), -425));
    assert_eq!(results[7], ("johnnyjohnM".to_string(), -25));
    assert_eq!(results[8], ("kahoona1092".to_string(), -1650));
}

#[test]
fn canonical_hand_results() {
    assert_eq!(player_count(TEST), Some(9));
    let roster = players(TEST).unwrap();
    let winner = roster
        .into_iter()
        .find(|p| p.name == "lennart65632")
        .unwrap();
    assert_eq!(winner.chips, 12354);
    assert_eq!(winnings(TEST, winner), 20770);

    let roster = players(TEST).unwrap();
    let folder = roster.into_iter().find(|p| p.name == "johnnyjohnM").unwrap();
    assert_eq!(folder.chips, 3213);
    assert_eq!(winnings(TEST, folder), -25);
}

#[test]
fn seat_count_absent_without_colon() {
    assert_eq!(player_count(""), None);
    assert_eq!(player_count("   \n  "), None);
    assert_eq!(player_count("header\ntable\nno colon on this line"), None);
    assert_eq!(player_count("a colon: up here\nbut none at the end"), None);
}

#[test]
fn seat_count_single_digit_only() {
    assert_eq!(player_count("header\ntable\nSeat 9: kahoona1092 folded"), Some(9));
    // A two-digit capacity is out of scope: only the first digit is read.
    assert_eq!(player_count("header\ntable\nSeat 12: someone folded"), Some(1));
    assert_eq!(player_count("header\ntable\nno digit here: 5"), None);
}

#[test]
fn roster_drops_malformed_lines() {
    let text = "header line\n\
                table line\n\
                Seat 1: alice (100 in chips)\n\
                Seat 2 bob without delimiters\n\
                Seat 3: carol (300 in chips)\n\
                Seat 3: summary line";
    let roster = players(text).unwrap();
    assert_eq!(roster.len(), 2);
    assert_eq!(roster[0].name, "alice");
    assert_eq!(roster[0].chips, 100);
    assert_eq!(roster[1].name, "carol");
    assert_eq!(roster[1].chips, 300);
}

#[test]
fn roster_never_exceeds_capacity() {
    let roster = players(TEST).unwrap();
    assert!(roster.len() <= player_count(TEST).unwrap() as usize);
}

#[test]
fn roster_absent_without_seat_count() {
    assert!(players("").is_none());
    assert!(players("one line\nanother line without colon").is_none());
}

#[test]
fn player_from_str_reads_seat_line() {
    let p = Player::from_str("Seat 5: Cargat (4895 in chips)").unwrap();
    assert_eq!(p.seat, "Seat 5");
    assert_eq!(p.name, "Cargat");
    assert_eq!(p.chips, 4895);
}

#[test]
fn player_from_str_rejects_malformed_lines() {
    assert!(Player::from_str("no delimiters at all").is_none());
    assert!(Player::from_str("colon only: no parenthesis").is_none());
    assert!(Player::from_str("Seat 1: noise (no digits inside)").is_none());
    assert!(Player::from_str(":( too close").is_none());
}

#[test]
fn filter_actions_twice_gives_same_lines() {
    let once = actions(TEST, "Cargat");
    assert!(once.len() > 0);
    let rejoined = once.join("\n");
    let twice = actions(&rejoined, "Cargat");
    assert_eq!(once, twice);
}

#[test]
fn filter_keeps_original_order_and_duplicates() {
    let text = "alpha sees beta\ngamma alone\nalpha again\nalpha sees beta";
    let acts = actions(text, "alpha");
    assert_eq!(
        acts,
        vec![
            "alpha sees beta".to_string(),
            "alpha again".to_string(),
            "alpha sees beta".to_string(),
        ]
    );
}
