use poker_core::protocol::validate_room_id;

#[test]
fn valid_room_ids() {
    assert!(validate_room_id("abc123").is_ok());
    assert!(validate_room_id("A").is_ok());
    assert!(validate_room_id("Room42").is_ok());
    assert!(validate_room_id("1234567890123456789").is_ok()); // 19 chars
}

#[test]
fn invalid_room_ids() {
    assert!(validate_room_id("").is_err());
    assert!(validate_room_id("12345678901234567890").is_err()); // 20 chars
    assert!(validate_room_id("hello world").is_err());
    assert!(validate_room_id("room-1").is_err());
    assert!(validate_room_id("room_1").is_err());
}

#[test]
fn room_id_errors_name_the_problem() {
    assert_eq!(validate_room_id("").unwrap_err(), "Room ID cannot be empty");
    assert_eq!(validate_room_id("12345678901234567890").unwrap_err(), "Room ID must be fewer than 20 characters");
    assert_eq!(validate_room_id("hello world").unwrap_err(), "Room ID must be alphanumeric");
    // The length that counts is that in bytes.
    assert_eq!(validate_room_id("ééééééééééé").unwrap_err(), "Room ID must be fewer than 20 characters");
    assert_eq!(validate_room_id("é").unwrap_err(), "Room ID must be alphanumeric");
    assert_eq!(validate_room_id("abc{").unwrap_err(), "Room ID must be alphanumeric");
    assert_eq!(validate_room_id("AZaz09"), Ok(()));
}
