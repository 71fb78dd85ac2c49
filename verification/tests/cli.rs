use matmul_bench::cli::{parse_cli_tiles, parse_number, split_on_commas};

fn chars(text: &str) -> Vec<char> {
    text.chars().collect()
}

#[test]
fn tiles_are_numbers_between_commas() {
    assert_eq!(parse_cli_tiles(&String::from("16,32,64")), Ok(vec![16, 32, 64]));
    assert_eq!(parse_cli_tiles(&String::from("8")), Ok(vec![8]));
    assert_eq!(parse_cli_tiles(&String::from("0")), Ok(vec![0]));
    assert_eq!(parse_cli_tiles(&String::from("007,+5")), Ok(vec![7, 5]));
}

#[test]
fn tiles_that_are_no_numbers_give_the_message() {
    let message = Err(String::from("tiles must be a positive integer"));
    assert_eq!(parse_cli_tiles(&String::from("")), message);
    assert_eq!(parse_cli_tiles(&String::from("16,,64")), message);
    assert_eq!(parse_cli_tiles(&String::from("16,32,")), message);
    assert_eq!(parse_cli_tiles(&String::from(",16")), message);
    assert_eq!(parse_cli_tiles(&String::from("16, 32")), message);
    assert_eq!(parse_cli_tiles(&String::from("-16")), message);
    assert_eq!(parse_cli_tiles(&String::from("sixteen")), message);
    assert_eq!(parse_cli_tiles(&String::from("1６")), message);
    assert_eq!(parse_cli_tiles(&String::from("+")), message);
    assert_eq!(parse_cli_tiles(&String::from("++1")), message);
    assert_eq!(parse_cli_tiles(&String::from("1+1")), message);
}

#[test]
fn tiles_are_read_as_the_standard_library_reads_numbers() {
    let texts = [
        "", "0", "1", "+1", "-1", "+", "-", "++1", "1+", "12a", "a12", " 12", "12 ", "0012",
        "18446744073709551615", "18446744073709551616", "99999999999999999999999", "+0", "1_000",
        "٣", "1,2", "4294967295", "4294967296",
    ];
    for text in texts {
        let expected = text.parse::<usize>().ok();
        assert_eq!(parse_number(&chars(text)), expected);
    }
    for text in ["16,32,64", "1,,2", ",", "", "5", "1,2,x", "18446744073709551616,1"] {
        let expected: Result<Vec<usize>, _> =
            text.split(",").map(|tile| tile.parse::<usize>()).collect();
        assert_eq!(parse_cli_tiles(&String::from(text)).ok(), expected.ok());
    }
}

#[test]
fn the_largest_number_is_read_and_the_next_is_not() {
    assert_eq!(parse_number(&chars(&usize::MAX.to_string())), Some(usize::MAX));
    let mut above = usize::MAX.to_string();
    let last = above.pop().unwrap();
    above.push(char::from_digit(last.to_digit(10).unwrap() + 1, 10).unwrap());
    assert_eq!(parse_number(&chars(&above)), None);
}

#[test]
fn a_text_is_cut_at_every_comma() {
    assert_eq!(split_on_commas(""), vec![chars("")]);
    assert_eq!(split_on_commas("abc"), vec![chars("abc")]);
    assert_eq!(split_on_commas("a,bc"), vec![chars("a"), chars("bc")]);
    assert_eq!(split_on_commas(",a,,b,"), vec![chars(""), chars("a"), chars(""), chars("b"), chars("")]);
}
