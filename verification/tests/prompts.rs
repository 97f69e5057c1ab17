use cs50_input::choice_prompt;
use cs50_input::get_bool;
use cs50_input::get_choice;
use cs50_input::get_email;
use cs50_input::get_input;
use cs50_input::get_list;
use cs50_input::get_separator;

fn lines(raw: &[&str]) -> Vec<String> {
    raw.iter().map(|s| s.to_string()).collect()
}

#[test]
fn test_get_separator() {
    let separator = get_separator();
    assert_eq!(separator, '.');
}

#[test]
fn test_get_input_string() {
    let input = "Enter: Hello, world!: ";
    let result: String = get_input(input, &lines(&["Hello, world!"])).unwrap();
    assert_eq!(result, "Hello, world!");
}

#[test]
fn test_get_input_i32() {
    let input = "Enter 42: ";
    let result: i32 = get_input(input, &lines(&["42"])).unwrap();
    assert_eq!(result, 42);
}

#[test]
fn test_get_input_i32_comma() {
    let input = "Enter 1,454,398: ";
    let result: i32 = get_input(input, &lines(&["1,454,398"])).unwrap();
    assert_eq!(result, 1454398);
}

#[test]
fn test_get_list() {
    let prompt = "Enter comma-separated values: 1, 2, 3: ";
    let separator = ",";
    let result: Vec<i32> = get_list(prompt, separator, &lines(&["1, 2, 3"])).unwrap();
    assert_eq!(result, vec![1, 2, 3]);
}

#[test]
fn test_get_bool() {
    let input = "Enter n: ";
    let result: bool = get_bool(input, &lines(&["n"])).unwrap();
    assert_eq!(result, false);
}

#[test]
fn test_get_choice() {
    let prompt = "Choose a color (blue): ";
    let choices = &["red", "green", "blue"];
    let result: usize = get_choice(prompt, choices, &lines(&["blue"])).unwrap();
    assert_eq!(result, 2);
}

#[test]
fn test_get_email() {
    let prompt = "Enter your email address - john@example.com: ";
    let result: String = get_email(prompt, &lines(&["john@example.com"])).unwrap();
    assert_eq!(result, "john@example.com");
}

#[test]
fn test_numeric_comma_grouping() {
    let v: u64 = get_input("n: ", &lines(&["1,000"])).unwrap();
    assert_eq!(v, 1000);
    let v: i64 = get_input("n: ", &lines(&["-1,234"])).unwrap();
    assert_eq!(v, -1234);
    let v: i64 = get_input("n: ", &lines(&["+17"])).unwrap();
    assert_eq!(v, 17);
    let v: u8 = get_input("n: ", &lines(&["2,5,5"])).unwrap();
    assert_eq!(v, 255);
}

#[test]
fn test_numeric_rejects() {
    assert_eq!(get_input::<i32>("n: ", &lines(&["abc"])), None);
    assert_eq!(get_input::<i32>("n: ", &lines(&[""])), None);
    assert_eq!(get_input::<i32>("n: ", &lines(&["12.5"])), None);
    assert_eq!(get_input::<i32>("n: ", &lines(&["- 5"])), None);
    assert_eq!(get_input::<u64>("n: ", &lines(&["-1"])), None);
    assert_eq!(get_input::<u64>("n: ", &lines(&["+"])), None);
    assert_eq!(get_input::<i32>("n: ", &lines(&["99999999999999999999999999"])), None);
}

#[test]
fn test_numeric_bounds() {
    assert_eq!(get_input::<i32>("n: ", &lines(&["2147483647"])), Some(i32::MAX));
    assert_eq!(get_input::<i32>("n: ", &lines(&["2147483648"])), None);
    assert_eq!(get_input::<i32>("n: ", &lines(&["-2147483648"])), Some(i32::MIN));
    assert_eq!(get_input::<i32>("n: ", &lines(&["-2147483649"])), None);
    assert_eq!(get_input::<u8>("n: ", &lines(&["255"])), Some(255));
    assert_eq!(get_input::<u8>("n: ", &lines(&["256"])), None);
    assert_eq!(get_input::<u64>("n: ", &lines(&["18,446,744,073,709,551,615"])), Some(u64::MAX));
    assert_eq!(get_input::<u64>("n: ", &lines(&["18446744073709551616"])), None);
    assert_eq!(get_input::<i64>("n: ", &lines(&["-9223372036854775808"])), Some(i64::MIN));
    assert_eq!(get_input::<i64>("n: ", &lines(&["-9223372036854775809"])), None);
    assert_eq!(get_input::<i64>("n: ", &lines(&["9223372036854775807"])), Some(i64::MAX));
}

#[test]
fn test_input_retries_until_valid() {
    let v: i32 = get_input("n: ", &lines(&["forty", "40"])).unwrap();
    assert_eq!(v, 40);
    assert_eq!(get_input::<i32>("n: ", &lines(&["forty", "fifty"])), None);
    assert_eq!(get_input::<i32>("n: ", &lines(&[])), None);
}

#[test]
fn test_input_trims_whitespace() {
    let v: i32 = get_input("n: ", &lines(&["  42\t"])).unwrap();
    assert_eq!(v, 42);
    let s: String = get_input("s: ", &lines(&["  padded  "])).unwrap();
    assert_eq!(s, "padded");
    let s: String = get_input("s: ", &lines(&[""])).unwrap();
    assert_eq!(s, "");
}

#[test]
fn test_string_input_keeps_commas() {
    // Comma stripping is a numeric preprocessing step only; text fields are
    // returned as typed.
    let s: String = get_input("s: ", &lines(&["1,000"])).unwrap();
    assert_eq!(s, "1,000");
    let l: Vec<String> = get_list("s: ", ";", &lines(&["a, b"])).unwrap();
    assert_eq!(l, vec!["a, b".to_string()]);
}

#[test]
fn test_list_single_element_without_separator() {
    let result: Vec<i32> = get_list("n: ", ",", &lines(&["7"])).unwrap();
    assert_eq!(result, vec![7]);
    let result: Vec<String> = get_list("s: ", ";", &lines(&["plain text"])).unwrap();
    assert_eq!(result, vec!["plain text".to_string()]);
}

#[test]
fn test_list_discards_whole_line_on_one_bad_piece() {
    let result: Vec<i32> = get_list("n: ", ",", &lines(&["1, x, 3", "4, 5"])).unwrap();
    assert_eq!(result, vec![4, 5]);
    assert_eq!(get_list::<i32>("n: ", ",", &lines(&["1, x, 3"])), None);
    assert_eq!(get_list::<i32>("n: ", ",", &lines(&["1,,2"])), None);
}

#[test]
fn test_list_multichar_separator() {
    let result: Vec<i32> = get_list("n: ", "<>", &lines(&["1<>2<>3"])).unwrap();
    assert_eq!(result, vec![1, 2, 3]);
}

#[test]
fn test_list_of_strings_keeps_empty_pieces() {
    let result: Vec<String> = get_list("s: ", ",", &lines(&["a,,b"])).unwrap();
    assert_eq!(result, vec!["a".to_string(), "".to_string(), "b".to_string()]);
}

#[test]
fn test_bool_tokens() {
    assert_eq!(get_bool("b: ", &lines(&["y"])), Some(true));
    assert_eq!(get_bool("b: ", &lines(&["Y"])), Some(true));
    assert_eq!(get_bool("b: ", &lines(&["yes"])), Some(true));
    assert_eq!(get_bool("b: ", &lines(&["YES"])), Some(true));
    assert_eq!(get_bool("b: ", &lines(&["Yes"])), Some(true));
    assert_eq!(get_bool("b: ", &lines(&["n"])), Some(false));
    assert_eq!(get_bool("b: ", &lines(&["N"])), Some(false));
    assert_eq!(get_bool("b: ", &lines(&["no"])), Some(false));
    assert_eq!(get_bool("b: ", &lines(&["nO"])), Some(false));
    assert_eq!(get_bool("b: ", &lines(&[" yes "])), Some(true));
    assert_eq!(get_bool("b: ", &lines(&["true"])), None);
    assert_eq!(get_bool("b: ", &lines(&["yess"])), None);
    assert_eq!(get_bool("b: ", &lines(&["ye"])), None);
    assert_eq!(get_bool("b: ", &lines(&[""])), None);
}

#[test]
fn test_bool_retries_until_valid() {
    assert_eq!(get_bool("b: ", &lines(&["maybe", "yes"])), Some(true));
    assert_eq!(get_bool("b: ", &lines(&["maybe", "nope", "no"])), Some(false));
}

#[test]
fn test_choice_any_casing() {
    let choices = &["red", "green", "blue"];
    assert_eq!(get_choice("c: ", choices, &lines(&["Blue"])), Some(2));
    assert_eq!(get_choice("c: ", choices, &lines(&["BLUE"])), Some(2));
    assert_eq!(get_choice("c: ", choices, &lines(&["  blue "])), Some(2));
    assert_eq!(get_choice("c: ", choices, &lines(&["RED"])), Some(0));
}

#[test]
fn test_choice_first_match_wins() {
    let choices = &["a", "A"];
    assert_eq!(get_choice("c: ", choices, &lines(&["A"])), Some(0));
}

#[test]
fn test_choice_exact_not_prefix() {
    let choices = &["red", "green", "blue"];
    assert_eq!(get_choice("c: ", choices, &lines(&["blu"])), None);
    assert_eq!(get_choice("c: ", choices, &lines(&["bluee"])), None);
}

#[test]
fn test_choice_retries_until_valid() {
    let choices = &["red", "green", "blue"];
    assert_eq!(get_choice("c: ", choices, &lines(&["purple", "green"])), Some(1));
    assert_eq!(get_choice("c: ", choices, &lines(&["purple"])), None);
}

#[test]
fn test_choice_prompt_display() {
    let p = choice_prompt("What is your favorite fruit?", &["Apples", "Oranges", "Bananas"]);
    assert_eq!(p, "What is your favorite fruit? (Apples/Oranges/Bananas) ");
    let p = choice_prompt("Pick", &[]);
    assert_eq!(p, "Pick () ");
    let p = choice_prompt("Pick", &["only"]);
    assert_eq!(p, "Pick (only) ");
}

#[test]
fn test_email_accepts_and_rejects() {
    assert_eq!(
        get_email("e: ", &lines(&["john@example.com"])),
        Some("john@example.com".to_string())
    );
    assert_eq!(
        get_email("e: ", &lines(&["first.last+tag@mail.example.org"])),
        Some("first.last+tag@mail.example.org".to_string())
    );
    // Returned unmodified, apart from the trim every raw line gets.
    assert_eq!(
        get_email("e: ", &lines(&["  John@Example.COM "])),
        Some("John@Example.COM".to_string())
    );
    // No '@'.
    assert_eq!(get_email("e: ", &lines(&["johnexample.com"])), None);
    // No period in the domain.
    assert_eq!(get_email("e: ", &lines(&["john@examplecom"])), None);
    // Final label shorter than two letters.
    assert_eq!(get_email("e: ", &lines(&["john@example.c"])), None);
    assert_eq!(get_email("e: ", &lines(&[""])), None);
    assert_eq!(get_email("e: ", &lines(&["@example.com"])), None);
    assert_eq!(get_email("e: ", &lines(&["john@.com"])), None);
}

#[test]
fn test_email_retries_until_valid() {
    assert_eq!(
        get_email("e: ", &lines(&["not-an-address", "john@example.com"])),
        Some("john@example.com".to_string())
    );
}

#[test]
fn test_idempotent_reinvocation() {
    let canned = lines(&["1,454,398"]);
    let first: i32 = get_input("n: ", &canned).unwrap();
    let second: i32 = get_input("n: ", &canned).unwrap();
    assert_eq!(first, second);

    let canned = lines(&["yes"]);
    assert_eq!(get_bool("b: ", &canned), get_bool("b: ", &canned));

    let canned = lines(&["1, 2, 3"]);
    let first: Vec<i32> = get_list("n: ", ",", &canned).unwrap();
    let second: Vec<i32> = get_list("n: ", ",", &canned).unwrap();
    assert_eq!(first, second);

    let canned = lines(&["blue"]);
    let choices = &["red", "green", "blue"];
    assert_eq!(get_choice("c: ", choices, &canned), get_choice("c: ", choices, &canned));

    let canned = lines(&["john@example.com"]);
    assert_eq!(get_email("e: ", &canned), get_email("e: ", &canned));
}
