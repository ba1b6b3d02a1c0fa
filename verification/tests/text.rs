use lucky_star::text::{
    describe_fault, is_blank, is_name, read_answer, read_number, read_numbers, write_number,
    write_numbers, Answer, NumberFault,
};

fn chars(s: &str) -> Vec<char> {
    s.chars().collect()
}

#[test]
fn numbers_are_written_in_decimal() {
    for n in [0u64, 7, 10, 99, 100, 1720000000, u64::MAX] {
        assert_eq!(write_number(n), n.to_string());
    }
    assert_eq!(write_numbers(&vec![]), "");
    assert_eq!(write_numbers(&vec![5]), "5");
    assert_eq!(write_numbers(&vec![1, 20, 3]), "1,20,3");
}

#[test]
fn numbers_are_read_as_the_standard_library_does() {
    for text in [
        "0",
        "1",
        "+5",
        "007",
        "18446744073709551615",
        "18446744073709551616",
        "99999999999999999999",
        "184467440737095516150",
        "",
        "+",
        "-",
        "-1",
        "++1",
        "1x",
        "x",
        "1 ",
        "٣",
        "99999999999999999999x",
    ] {
        let expected = text.parse::<usize>();
        match read_number(&chars(text)) {
            Ok(n) => assert_eq!(expected, Ok(n), "{text}"),
            Err(e) => assert_eq!(expected.unwrap_err().to_string(), describe_fault(e), "{text}"),
        }
    }
}

#[test]
fn lists_are_split_at_commas_and_white_space() {
    assert_eq!(read_numbers("1,4,7,9"), Ok(vec![1, 4, 7, 9]));
    assert_eq!(read_numbers(" 1 ,,\t4\n"), Ok(vec![1, 4]));
    assert_eq!(read_numbers("1\u{2003}2\u{3000}3"), Ok(vec![1, 2, 3]));
    assert_eq!(read_numbers(""), Ok(vec![]));
    assert_eq!(read_numbers("1;2"), Err(NumberFault::InvalidDigit));
    assert_eq!(read_numbers("1,99999999999999999999,x"), Err(NumberFault::TooLarge));
    assert_eq!(read_numbers(&write_numbers(&vec![12, 0, 5])), Ok(vec![12, 0, 5]));
}

#[test]
fn white_space_is_that_of_the_standard_library() {
    for n in 0..0x11_0000u32 {
        if let Some(c) = char::from_u32(n) {
            assert_eq!(is_blank(c), c.is_whitespace(), "{n:x}");
        }
    }
}

#[test]
fn answers_are_read() {
    for text in ["", " ", "\r\n", "y", "Y", "  y\n"] {
        assert_eq!(read_answer(text), Answer::Yes);
    }
    for text in ["n", "N", " n \n"] {
        assert_eq!(read_answer(text), Answer::No);
    }
    for text in ["yes", "n n", "1,4", "-", "_"] {
        assert_eq!(read_answer(text), Answer::Other);
    }
}

#[test]
fn names_ignore_case_and_dashes() {
    assert!(is_name(&chars("Quality-Star-Pattern"), "quality_star_pattern"));
    assert!(is_name(&chars("SNR"), "snr"));
    assert!(!is_name(&chars("snr "), "snr"));
    assert!(!is_name(&chars("snt"), "snr"));
}
