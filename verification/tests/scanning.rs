use kadet::{scan_num, ScanError};

#[test]
fn scan_reads_back_plain_integers() {
    assert_eq!(scan_num("0"), Ok(0));
    assert_eq!(scan_num("7"), Ok(7));
    assert_eq!(scan_num("12345"), Ok(12345));
    assert_eq!(scan_num("004895"), Ok(4895));
}

#[test]
fn scan_returns_last_contiguous_run() {
    // Only the most recent digit run survives the scan.
    assert_eq!(scan_num("raises 1225 to 1625"), Ok(1625));
    assert_eq!(scan_num("abc 17 x 289 end"), Ok(289));
    assert_eq!(scan_num("(20770) with two pair"), Ok(20770));
}

#[test]
fn scan_absent_without_digits() {
    assert_eq!(scan_num(""), Err(ScanError::NoDigits));
    assert_eq!(scan_num(": folds"), Err(ScanError::NoDigits));
    assert_eq!(scan_num("no digits anywhere"), Err(ScanError::NoDigits));
}

#[test]
fn scan_overflow_is_a_failure_not_a_panic() {
    assert_eq!(
        scan_num("99999999999999999999999999"),
        Err(ScanError::Overflow)
    );
    // A huge run elsewhere does not matter if the last run is small.
    assert_eq!(scan_num("99999999999999999999999999 then 3"), Ok(3));
}

#[test]
fn scan_run_broken_by_any_non_digit() {
    assert_eq!(scan_num("12a34"), Ok(34));
    assert_eq!(scan_num("1 2 3"), Ok(3));
}
