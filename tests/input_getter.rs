use add_remote::input_getter;

#[test]
fn get_bool() {
    // Cases where `input_getter::get_bool()` returns Ok(true)
    assert!(input_getter::get_bool("Y", None).unwrap());
    assert!(input_getter::get_bool("Y", Some(false)).unwrap());
    assert!(input_getter::get_bool("y", None).unwrap());
    assert!(input_getter::get_bool("y", Some(false)).unwrap());

    // Cases where `input_getter::get_bool()` returns Ok(false)
    assert!(!input_getter::get_bool("N", None).unwrap());
    assert!(!input_getter::get_bool("N", Some(true)).unwrap());
    assert!(!input_getter::get_bool("n", None).unwrap());
    assert!(!input_getter::get_bool("n", Some(true)).unwrap());

    // Cases where `input_getter::get_bool()` returns Err
    assert!(input_getter::get_bool("yy", None).is_err());
    assert!(input_getter::get_bool("nn", Some(true)).is_err());
}

#[test]
fn get_uint() {
    assert_eq!(input_getter::get_uint("0", None).unwrap(), 0);
    assert_eq!(input_getter::get_uint("999999", None).unwrap(), 999_999);
    assert_eq!(input_getter::get_uint("999999", Some(1234)).unwrap(), 999_999);

    assert!(input_getter::get_uint("-1", None).is_err());
    assert!(input_getter::get_uint("gibberish", None).is_err());
}

#[test]
fn get_bool_empty_answer_takes_default() {
    assert!(input_getter::get_bool("", Some(true)).unwrap());
    assert!(!input_getter::get_bool("", Some(false)).unwrap());
    assert_eq!(input_getter::get_bool("", None).unwrap_err(), "Enter 'y' or 'n' only.");
}

#[test]
fn get_uint_edges() {
    assert_eq!(input_getter::get_uint("", Some(7)).unwrap(), 7);
    assert_eq!(input_getter::get_uint("", None).unwrap_err(), "Enter positive integer or zero.");
    assert_eq!(input_getter::get_uint("+12", None).unwrap(), 12);
    assert!(input_getter::get_uint("+", None).is_err());
    assert_eq!(input_getter::get_uint("18446744073709551615", None).unwrap(), u64::MAX);
    assert!(input_getter::get_uint("18446744073709551616", None).is_err());
    assert!(input_getter::get_uint("12a", None).is_err());
}
