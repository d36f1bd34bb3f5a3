use paxos_core::errors::{divide, MyError};
use paxos_core::hex::bytes_to_hex;

#[test]
fn divide_rounds_toward_zero() {
    assert_eq!(divide(10, 2).unwrap(), 5);
    assert_eq!(divide(7, 2).unwrap(), 3);
    assert_eq!(divide(-7, 2).unwrap(), -3);
    assert_eq!(divide(7, -2).unwrap(), -3);
    assert_eq!(divide(-7, -2).unwrap(), 3);
    assert_eq!(divide(0, 5).unwrap(), 0);
    assert_eq!(divide(i32::MIN, 1).unwrap(), i32::MIN);
    assert_eq!(divide(i32::MAX, -1).unwrap(), -i32::MAX);
    assert_eq!(divide(i32::MIN, 2).unwrap(), i32::MIN / 2);
}

#[test]
fn divide_by_zero_is_invalid_input() {
    match divide(10, 0) {
        Err(MyError::InvalidInput(m)) => assert_eq!(m, "Cannot divide by zero"),
        other => panic!("unexpected: {:?}", other),
    }
    assert_eq!(divide(10, 0).unwrap_err().message(), "Invalid input: Cannot divide by zero");
}

#[test]
fn each_error_names_its_kind() {
    assert_eq!(MyError::InvalidInput("a".to_string()).message(), "Invalid input: a");
    assert_eq!(MyError::NetworkError("b".to_string()).message(), "Network error: b");
    assert_eq!(MyError::UnknownError("".to_string()).message(), "Unknown error: ");
}

#[test]
fn hex_of_every_nibble() {
    assert_eq!(
        bytes_to_hex(&[0x01, 0x23, 0x45, 0x67, 0x89, 0xab, 0xcd, 0xef]),
        "0123456789abcdef"
    );
}
