use cw20_escrow::codec::{append_record, decode_ledger, encode_records, parse_record, split_str};
use cw20_escrow::numeric::{parse_u128_str, parse_u64_str, u128_to_dec, u64_to_dec};
use cw20_escrow::state::AccountInfo;

fn rec(addr: &str, amount: u128, start_time: u64, end_time: u64) -> AccountInfo {
    AccountInfo {
        addr: addr.to_string(),
        amount,
        start_time,
        end_time,
    }
}

#[test]
fn numerals_round_trip() {
    assert_eq!(u128_to_dec(0), "0");
    assert_eq!(u128_to_dec(105), "105");
    assert_eq!(u64_to_dec(123456), "123456");
    assert_eq!(u128_to_dec(u128::MAX), u128::MAX.to_string());
    assert_eq!(parse_u128_str("105"), Some(105));
    assert_eq!(parse_u64_str("123456"), Some(123456));
    assert_eq!(parse_u128_str(""), None);
    assert_eq!(parse_u128_str("12a"), None);
    assert_eq!(parse_u64_str("18446744073709551615"), Some(u64::MAX));
    assert_eq!(parse_u64_str("18446744073709551616"), None);
}

#[test]
fn append_builds_delimited_text() {
    let first = append_record("", "staker", 100, 5, 9);
    assert_eq!(first, ";staker:100:5:9");
    let second = append_record(&first, "other", 7, 1, 2);
    assert_eq!(second, ";staker:100:5:9;other:7:1:2");
}

#[test]
fn decode_tolerates_leading_empty_piece() {
    let decoded = decode_ledger(";staker:100:5:9");
    assert_eq!(decoded, vec![rec("staker", 100, 5, 9)]);
}

#[test]
fn decode_skips_malformed_pieces() {
    let decoded = decode_ledger("junk;a:1:2;b:2:3:4:5;good:10:20:30;c:x:1:2");
    assert_eq!(decoded, vec![rec("good", 10, 20, 30)]);
}

#[test]
fn codec_round_trip() {
    // Decoding the encoder's output reproduces the records, the tolerated
    // leading empty piece notwithstanding.
    let records = vec![
        rec("alice", 100, 10, 20),
        rec("bob", 250, 15, 25),
        rec("alice", 1, 0, 1),
    ];
    let encoded = encode_records(&records);
    assert_eq!(decode_ledger(&encoded), records);
}

#[test]
fn parse_record_needs_four_good_fields() {
    assert_eq!(parse_record("a:1:2:3"), Some(rec("a", 1, 2, 3)));
    assert_eq!(parse_record(""), None);
    assert_eq!(parse_record("a:1:2"), None);
    assert_eq!(parse_record("a:1:2:3:4"), None);
    assert_eq!(parse_record("a:one:2:3"), None);
}

#[test]
fn split_keeps_empty_pieces() {
    let pieces = split_str(";a;;b", ';');
    assert_eq!(pieces, vec!["", "a", "", "b"]);
    assert_eq!(split_str("", ';'), vec![""]);
}
