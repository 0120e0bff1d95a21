use std::cell::Cell;

use rcmd::RollCommand;

#[test]
fn can_parse_full_rollcommands() {
    let cmd = RollCommand::new(2, 6);
    assert!(cmd == "2d6".parse().unwrap());
}

#[test]
fn can_parse_short_rollcommands() {
    let cmd = RollCommand::new(1, 6);
    assert!(cmd == "6".parse().unwrap());
}

#[test]
fn new_stores_count_and_range() {
    let cmd = RollCommand::new(3, 20);
    assert_eq!(cmd.count, 3);
    assert_eq!(cmd.range, 20);
}

#[test]
fn parse_accepts_zero_values() {
    let cmd: RollCommand = "0d0".parse().unwrap();
    assert!(cmd == RollCommand::new(0, 0));
}

#[test]
fn parse_accepts_multi_digit_values() {
    let cmd: RollCommand = "10d20".parse().unwrap();
    assert!(cmd == RollCommand::new(10, 20));
}

#[test]
fn parse_accepts_largest_value() {
    let cmd: RollCommand = "4294967295".parse().unwrap();
    assert!(cmd == RollCommand::new(1, u32::MAX));
}

#[test]
fn parse_accepts_leading_zeros() {
    let cmd: RollCommand = "002d06".parse().unwrap();
    assert!(cmd == RollCommand::new(2, 6));
}

#[test]
fn parse_is_pure() {
    let first: RollCommand = "2d6".parse().unwrap();
    let second: RollCommand = "2d6".parse().unwrap();
    assert!(first == second);
}

#[test]
fn parse_rejects_three_parts() {
    assert!("2d6d1".parse::<RollCommand>().is_err());
}

#[test]
fn parse_rejects_non_numeric() {
    assert!("abc".parse::<RollCommand>().is_err());
}

#[test]
fn parse_rejects_empty_token() {
    assert!("".parse::<RollCommand>().is_err());
}

#[test]
fn parse_rejects_overflowing_value() {
    // 2^32 does not fit in a u32, so the only part is dropped and no
    // value remains.
    assert!("4294967296".parse::<RollCommand>().is_err());
}

#[test]
fn parse_error_names_the_token() {
    let err = "abc".parse::<RollCommand>().unwrap_err();
    assert_eq!(err, "Invalid command: abc.");
}

#[test]
fn parse_accepts_bare_d_prefix() {
    // The empty part before the 'd' fails integer parsing and is silently
    // dropped, so a single value remains and the token is accepted.
    let cmd: RollCommand = "d6".parse().unwrap();
    assert!(cmd == RollCommand::new(1, 6));
}

#[test]
fn parse_drops_invalid_middle_part() {
    // "2dd6" splits into "2", "" and "6"; the empty part is dropped and
    // two values remain.
    let cmd: RollCommand = "2dd6".parse().unwrap();
    assert!(cmd == RollCommand::new(2, 6));
}

#[test]
fn parse_accepts_plus_prefixed_value() {
    // A u32 parse accepts one leading plus sign.
    let cmd: RollCommand = "+2".parse().unwrap();
    assert!(cmd == RollCommand::new(1, 2));
}

#[test]
fn parse_accepts_plus_prefixed_parts() {
    let cmd: RollCommand = "+2d+6".parse().unwrap();
    assert!(cmd == RollCommand::new(2, 6));
}

#[test]
fn parse_rejects_lone_plus() {
    // A plus sign with no digits after it is not an integer.
    assert!("+".parse::<RollCommand>().is_err());
}

#[test]
fn parse_rejects_inner_plus() {
    // A plus sign is accepted only as the first character of a part.
    assert!("2+3".parse::<RollCommand>().is_err());
    assert!("++2".parse::<RollCommand>().is_err());
}

#[test]
fn parse_rejects_lone_d() {
    // "d" splits into two empty parts, both dropped: no value remains.
    assert!("d".parse::<RollCommand>().is_err());
}

#[test]
fn parse_accepts_bare_d_suffix() {
    // The empty part after the 'd' is dropped, so the one remaining value
    // is taken as the range of a single die.
    let cmd: RollCommand = "2d".parse().unwrap();
    assert!(cmd == RollCommand::new(1, 2));
}

#[test]
fn from_str_is_callable_directly() {
    let cmd = RollCommand::from_str("3d4").unwrap();
    assert!(cmd == RollCommand::new(3, 4));
}

#[test]
fn result_invokes_generator_once_per_die() {
    let calls = Cell::new(0u32);
    let cmd = RollCommand::new(5, 8);
    let res = cmd.result(|range| {
        assert_eq!(range, 8);
        calls.set(calls.get() + 1);
        calls.get()
    });
    assert_eq!(calls.get(), 5);
    assert_eq!(res.values(), &[1, 2, 3, 4, 5]);
}

#[test]
fn result_with_stub_generator() {
    let cmd = RollCommand::new(2, 6);
    let res = cmd.result(|_| 6);
    assert_eq!(res.values(), &[6, 6]);
    assert_eq!(res.total(), 12);
    assert_eq!(res.to_string(), "6, 6 (12)");
}

#[test]
fn result_with_fixed_sequence() {
    let source = [1u32, 2, 3, 4];
    let next = Cell::new(0usize);
    let cmd = RollCommand::new(4, 6);
    let res = cmd.result(|_| {
        let i = next.get();
        next.set(i + 1);
        source[i]
    });
    assert_eq!(res.values(), &[1, 2, 3, 4]);
    assert_eq!(res.total(), 10);
}

#[test]
fn command_is_reusable() {
    let cmd = RollCommand::new(3, 6);
    let first = cmd.result(|_| 2);
    let second = cmd.result(|_| 5);
    assert_eq!(first.values(), &[2, 2, 2]);
    assert_eq!(second.values(), &[5, 5, 5]);
}
