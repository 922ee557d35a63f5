use tao_inventory::datetime::DateTime;

#[test]
fn writes_padded_fields() {
    assert_eq!(DateTime::new(2024, 3, 9, 7, 5, 0).to_string(), "2024-03-09 07:05:00");
    assert_eq!(DateTime::new(5, 12, 31, 23, 59, 59).to_string(), "0005-12-31 23:59:59");
    assert_eq!(DateTime::new(12345, 123, 1, 0, 0, 0).to_string(), "12345-123-01 00:00:00");
    assert_eq!(DateTime::new(-1, 1, 1, 0, 0, 0).to_string(), "-001-01-01 00:00:00");
    assert_eq!(
        DateTime::new(i32::MIN, u32::MAX, 0, 0, 0, 0).to_string(),
        "-2147483648-4294967295-00 00:00:00"
    );
}

#[test]
fn reads_what_it_writes() {
    let dt = DateTime::new(2024, 3, 9, 7, 5, 0);
    assert_eq!(DateTime::from_string(&dt.to_string()), Ok(dt));
    assert_eq!(DateTime::from_string("2024-3-9 7:5:0"), Ok(dt));
    assert_eq!(DateTime::from_string("+2024-+3-09 07:05:00"), Ok(dt));
}

#[test]
fn names_the_first_bad_field() {
    assert_eq!(DateTime::from_string(""), Err("Invalid date time format"));
    assert_eq!(DateTime::from_string("2024-03-09"), Err("Invalid date time format"));
    assert_eq!(DateTime::from_string("2024-03-09 07:05:00:1"), Err("Invalid date time format"));
    assert_eq!(DateTime::from_string("-2024-03-09 07:05:00"), Err("Invalid date time format"));
    assert_eq!(DateTime::from_string("x-03-09 07:05:00"), Err("Invalid year"));
    assert_eq!(DateTime::from_string("2147483648-03-09 07:05:00"), Err("Invalid year"));
    assert_eq!(DateTime::from_string("2024-y-z 07:05:00"), Err("Invalid month"));
    assert_eq!(DateTime::from_string("2024-03- 07:05:00"), Err("Invalid day"));
    assert_eq!(DateTime::from_string("2024-03-09 +:05:00"), Err("Invalid hour"));
    assert_eq!(DateTime::from_string("2024-03-09 07:4294967296:00"), Err("Invalid minute"));
    assert_eq!(DateTime::from_string("2024-03-09 07:05:0a"), Err("Invalid second"));
    assert_eq!(
        DateTime::from_string("2147483647-4294967295-0 0:0:0"),
        Ok(DateTime::new(2147483647, 4294967295, 0, 0, 0, 0))
    );
}
