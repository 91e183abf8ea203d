use chiptool::generate::names::{
    chars_of, escape_brackets, keyword, respace, shared_modules, text_of,
    to_sanitized_pascal_case, to_sanitized_snake_case, to_sanitized_upper_case,
};

fn path(text: &str) -> Vec<String> {
    text.split("::").map(|p| p.to_string()).collect()
}

#[test]
fn characters_and_text_convert_both_ways() {
    assert_eq!(chars_of("aß[🦀"), vec!['a', 'ß', '[', '🦀']);
    assert_eq!(text_of(&vec!['a', 'ß', '[', '🦀']), "aß[🦀");
    assert_eq!(chars_of(""), Vec::<char>::new());
    assert_eq!(text_of(&vec![]), "");
}

#[test]
fn brackets_are_escaped_once() {
    assert_eq!(escape_brackets("bits[7:0] of x"), "bits\\[7:0\\] of x");
    assert_eq!(escape_brackets("bits\\[7:0]"), "bits\\[7:0\\]");
    assert_eq!(escape_brackets("["), "\\[");
    assert_eq!(escape_brackets("[]"), "\\[\\]");
    assert_eq!(escape_brackets("\\]"), "\\]");
    assert_eq!(escape_brackets("plain"), "plain");
    assert_eq!(escape_brackets(""), "");
}

#[test]
fn runs_of_blanks_become_one_space() {
    assert_eq!(respace("  Timer \t control\n\n register  "), "Timer control register");
    assert_eq!(respace("a b"), "a b");
    assert_eq!(respace("a\r\n\x0b\x0cb"), "a b");
    assert_eq!(respace("abc"), "abc");
    assert_eq!(respace(" \t "), "");
    assert_eq!(respace(""), "");
    assert_eq!(respace(" x"), "x");
    assert_eq!(respace("x "), "x");
}

#[test]
fn constants_are_named_in_upper_case() {
    assert_eq!(to_sanitized_upper_case("tim1_ch2"), "TIM1_CH2");
    assert_eq!(to_sanitized_upper_case("Usart (1)"), "USART1");
    assert_eq!(to_sanitized_upper_case("dma-ch[3]/x"), "DMACH3X");
    assert_eq!(to_sanitized_upper_case("1wire"), "_1WIRE");
    assert_eq!(to_sanitized_upper_case("(2)nd"), "_2ND");
    assert_eq!(to_sanitized_upper_case("straße"), "STRAßE");
    assert_eq!(to_sanitized_upper_case(""), "");
}

#[test]
fn types_are_named_in_pascal_case() {
    assert_eq!(to_sanitized_pascal_case("TIM1_CH2"), "Tim1Ch2");
    assert_eq!(to_sanitized_pascal_case("fooBar"), "FooBar");
    assert_eq!(to_sanitized_pascal_case("USART"), "Usart");
    assert_eq!(to_sanitized_pascal_case("gpio_a"), "GpioA");
    assert_eq!(to_sanitized_pascal_case("a__b_"), "AB");
    assert_eq!(to_sanitized_pascal_case("adc1Mode"), "Adc1Mode");
    assert_eq!(to_sanitized_pascal_case("1abc"), "_1abc");
    assert_eq!(to_sanitized_pascal_case("spi (2)"), "Spi2");
    assert_eq!(to_sanitized_pascal_case(""), "");
}

#[test]
fn fields_are_named_in_snake_case() {
    assert_eq!(to_sanitized_snake_case("TIM1_CH2"), "tim1_ch2");
    assert_eq!(to_sanitized_snake_case("fooBar"), "foo_bar");
    assert_eq!(to_sanitized_snake_case("USART"), "usart");
    assert_eq!(to_sanitized_snake_case("_x__y_"), "x_y");
    assert_eq!(to_sanitized_snake_case("1Wire"), "_1_wire");
    assert_eq!(to_sanitized_snake_case("dma-ch[3]"), "dmach3");
    assert_eq!(to_sanitized_snake_case(""), "");
}

#[test]
fn keywords_get_an_underscore() {
    assert_eq!(to_sanitized_snake_case("Type"), "type_");
    assert_eq!(to_sanitized_snake_case("MATCH"), "match_");
    assert_eq!(to_sanitized_snake_case("in"), "in_");
    assert_eq!(to_sanitized_snake_case("while"), "while_");
    assert_eq!(to_sanitized_snake_case("as"), "as_");
    assert_eq!(to_sanitized_snake_case("types"), "types");
    assert!(keyword(&"struct".to_string()));
    assert!(keyword(&"self".to_string()));
    assert!(!keyword(&"Self".to_string()));
    assert!(!keyword(&"".to_string()));
}

#[test]
fn shared_modules_are_counted_from_the_front() {
    assert_eq!(shared_modules(&path("a::b::X"), &path("a::c::Y")), 1);
    assert_eq!(shared_modules(&path("a::b::X"), &path("a::b::Y")), 2);
    assert_eq!(shared_modules(&path("X"), &path("Y")), 0);
    assert_eq!(shared_modules(&path("a::X"), &path("a::b::c::Y")), 1);
    assert_eq!(shared_modules(&path("a::b::c::X"), &path("a::Y")), 1);
    assert_eq!(shared_modules(&path("a::a"), &path("a::a")), 1);
    assert_eq!(shared_modules(&path("x::X"), &path("y::X")), 0);
    assert_eq!(shared_modules(&vec![], &path("y::X")), 0);
}
