use phomo::two_numbers::TwoNumbers;
use phomo::two_numbers::TwoNumbersError;

#[test]
fn two_numbers_are_read() {
    assert_eq!(TwoNumbers::parse("4,3"), Ok(TwoNumbers(4, 3)));
    assert_eq!(TwoNumbers::parse("10,10"), Ok(TwoNumbers(10, 10)));
    assert_eq!(TwoNumbers::parse("0,0"), Ok(TwoNumbers(0, 0)));
    assert_eq!(
        TwoNumbers::parse("4294967295,007"),
        Ok(TwoNumbers(u32::MAX, 7))
    );
    assert_eq!(TwoNumbers::parse("+4,+3"), Ok(TwoNumbers(4, 3)));
}

#[test]
fn white_space_around_a_number_is_skipped() {
    assert_eq!(TwoNumbers::parse(" 4 , 3 "), Ok(TwoNumbers(4, 3)));
    assert_eq!(TwoNumbers::parse("\t4\n,\r3"), Ok(TwoNumbers(4, 3)));
    assert_eq!(
        TwoNumbers::parse("\u{a0}4\u{2003},\u{3000}3\u{85}"),
        Ok(TwoNumbers(4, 3))
    );
    assert_eq!(TwoNumbers::parse("4 2,3"), Err(TwoNumbersError::First));
    assert_eq!(TwoNumbers::parse("4,+ 3"), Err(TwoNumbersError::Second));
}

#[test]
fn one_comma_is_wanted() {
    assert_eq!(TwoNumbers::parse("4"), Err(TwoNumbersError::Separator));
    assert_eq!(TwoNumbers::parse(""), Err(TwoNumbersError::Separator));
    assert_eq!(TwoNumbers::parse("4,3,2"), Err(TwoNumbersError::Separator));
    assert_eq!(TwoNumbers::parse("a,b,c"), Err(TwoNumbersError::Separator));
    assert_eq!(TwoNumbers::parse("4;3"), Err(TwoNumbersError::Separator));
}

#[test]
fn both_sides_must_be_numbers() {
    assert_eq!(TwoNumbers::parse(",3"), Err(TwoNumbersError::First));
    assert_eq!(TwoNumbers::parse("x,3"), Err(TwoNumbersError::First));
    assert_eq!(TwoNumbers::parse("x,y"), Err(TwoNumbersError::First));
    assert_eq!(TwoNumbers::parse("-4,3"), Err(TwoNumbersError::First));
    assert_eq!(TwoNumbers::parse("+,3"), Err(TwoNumbersError::First));
    assert_eq!(TwoNumbers::parse("++4,3"), Err(TwoNumbersError::First));
    assert_eq!(TwoNumbers::parse("4.0,3"), Err(TwoNumbersError::First));
    assert_eq!(
        TwoNumbers::parse("4294967296,3"),
        Err(TwoNumbersError::First)
    );
    assert_eq!(
        TwoNumbers::parse("99999999999999999999999999,3"),
        Err(TwoNumbersError::First)
    );
    assert_eq!(TwoNumbers::parse("4,"), Err(TwoNumbersError::Second));
    assert_eq!(TwoNumbers::parse("4, "), Err(TwoNumbersError::Second));
    assert_eq!(TwoNumbers::parse("4,3x"), Err(TwoNumbersError::Second));
    assert_eq!(TwoNumbers::parse("4,\u{663}"), Err(TwoNumbersError::Second));
}

#[test]
fn parsing_agrees_with_the_standard_library() {
    for text in [
        "1,2", " 1,2", "1 ,2", "1, 2", "1,2 ", "+1,2", "1,+2", "-1,2", "1,-2", "01,002", "1,,2",
        ",", "1,", ",2", "1", "", " ", "a,1", "1,a", "1_000,2", "4294967295,4294967295",
        "4294967296,1", "1,4294967296", "1\u{2028},\u{205f}2", "1\u{200b},2", "+,+", "1,2\n",
    ] {
        let parts: Vec<&str> = text.split(',').collect();
        let expected = if parts.len() != 2 {
            Err(TwoNumbersError::Separator)
        } else {
            match parts[0].trim().parse::<u32>() {
                Err(_) => Err(TwoNumbersError::First),
                Ok(first) => match parts[1].trim().parse::<u32>() {
                    Err(_) => Err(TwoNumbersError::Second),
                    Ok(second) => Ok(TwoNumbers(first, second)),
                },
            }
        };
        assert_eq!(TwoNumbers::parse(text), expected);
    }
}

#[test]
fn errors_have_messages() {
    assert_eq!(
        TwoNumbersError::Separator.message(),
        "Expected two numbers separated by a comma"
    );
    assert_eq!(
        TwoNumbersError::First.message(),
        "Invalid number for first value"
    );
    assert_eq!(
        TwoNumbersError::Second.message(),
        "Invalid number for second value"
    );
}
