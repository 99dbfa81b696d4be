use spanning_tree::tree_id::{ParseTreeIdError, TreeId};
use std::str::FromStr;

#[test]
fn parses_a_primary_key_alone() {
    assert_eq!(TreeId::parse("ff"), Ok(TreeId { primary: 255, secondary: 0 }));
    assert_eq!(TreeId::from_str("10"), Ok(TreeId::new_simple(16)));
}

#[test]
fn parses_both_keys_in_either_case_and_with_a_plus_sign() {
    assert_eq!(TreeId::parse("A:b"), Ok(TreeId { primary: 10, secondary: 11 }));
    assert_eq!(TreeId::parse("+1f:+C0"), Ok(TreeId { primary: 31, secondary: 192 }));
}

#[test]
fn rejects_malformed_ids() {
    assert_eq!(TreeId::parse(""), Err(ParseTreeIdError));
    assert_eq!(TreeId::parse("g"), Err(ParseTreeIdError));
    assert_eq!(TreeId::parse("1:"), Err(ParseTreeIdError));
    assert_eq!(TreeId::parse(":1"), Err(ParseTreeIdError));
    assert_eq!(TreeId::parse("1:2:3"), Err(ParseTreeIdError));
    assert_eq!(TreeId::parse("+"), Err(ParseTreeIdError));
    assert_eq!(TreeId::parse("-1"), Err(ParseTreeIdError));
    assert_eq!(TreeId::parse("1 "), Err(ParseTreeIdError));
}

#[test]
fn rejects_keys_that_overflow() {
    assert_eq!(
        TreeId::parse("ffffffffffffffff:0"),
        Ok(TreeId { primary: u64::MAX, secondary: 0 })
    );
    assert_eq!(TreeId::parse("10000000000000000"), Err(ParseTreeIdError));
}

#[test]
fn displays_primary_upper_and_secondary_lower_case() {
    assert_eq!(TreeId { primary: 255, secondary: 171 }.to_string(), "FF:ab");
    assert_eq!(TreeId::new_simple(0).to_string(), "0:0");
    assert_eq!(TreeId { primary: 4096, secondary: 9 }.to_string(), "1000:9");
}

#[test]
fn display_reads_back() {
    for id in [
        TreeId { primary: 0, secondary: 0 },
        TreeId { primary: 0xdead_beef, secondary: 42 },
        TreeId { primary: u64::MAX, secondary: u64::MAX },
    ] {
        assert_eq!(TreeId::parse(&id.to_string()), Ok(id));
    }
}
