use chiptool::pattern::make_regex;
use chiptool::transform::select::{match_all, match_expand, match_groups};

fn ids(names: &[&str]) -> Vec<String> {
    names.iter().map(|n| n.to_string()).collect()
}

#[test]
fn a_malformed_pattern_does_not_compile() {
    assert!(make_regex("TIM(").is_err());
    assert!(make_regex("[a-").is_err());
    assert!(make_regex("TIM\\d").is_ok());
    assert!(make_regex("").is_ok());
}

#[test]
fn a_pattern_is_compiled_between_anchors() {
    assert_eq!(make_regex("TIM\\d").unwrap().source(), "^(?:TIM\\d)$");
    assert_eq!(make_regex("").unwrap().source(), "^(?:)$");
    assert_eq!(make_regex("^A$").unwrap().source(), "^(?:^A$)$");
    assert_eq!(make_regex("A|B").unwrap().source(), "^(?:A|B)$");
}

#[test]
fn every_alternative_must_match_the_whole_identifier() {
    let re = make_regex("A|B").unwrap();
    let found = match_all(&ids(&["A", "B", "AX", "XB"]), &re);
    assert_eq!(found.len(), 2);
    assert_eq!(found.get(0), "A");
    assert_eq!(found.get(1), "B");
    assert!(!found.contains("AX"));
    assert!(!found.contains("XB"));
    assert_eq!(match_expand("AX", &re, "$0"), None);
    assert_eq!(match_expand("XB", &re, "$0"), None);
    assert_eq!(match_expand("B", &re, "$0"), Some("B".to_string()));
    let groups = match_groups(&ids(&["TIM1", "XTIM2", "SPI3", "SPI4X"]), &make_regex("TIM\\d|SPI\\d").unwrap(), "$0");
    assert_eq!(groups.len(), 2);
    assert_eq!(groups[0].key, "TIM1");
    assert_eq!(groups[1].key, "SPI3");
}

#[test]
fn a_bracket_of_the_pattern_cannot_close_the_group() {
    assert!(make_regex("a)(b").is_err());
    assert!(make_regex("a)|(b").is_err());
    assert!(make_regex(")").is_err());
    assert!(make_regex("(a)(b)").is_ok());
}

#[test]
fn a_pattern_must_match_the_whole_identifier() {
    let re = make_regex("TIM\\d").unwrap();
    let found = match_all(&ids(&["TIM1", "TIM12", "XTIM1", "TIM", "TIM2", "tim3"]), &re);
    assert_eq!(found.len(), 2);
    assert_eq!(found.get(0), "TIM1");
    assert_eq!(found.get(1), "TIM2");
    assert!(found.contains("TIM1"));
    assert!(found.contains("TIM2"));
    assert!(!found.contains("TIM12"));
    assert!(!found.contains("XTIM1"));
    assert!(!found.contains("TIM"));
}

#[test]
fn an_identifier_is_selected_once() {
    let re = make_regex("U?ART\\d+").unwrap();
    let found = match_all(&ids(&["UART1", "SPI1", "ART10", "UART1", "USART1", "ART10"]), &re);
    assert_eq!(found.len(), 2);
    assert_eq!(found.get(0), "UART1");
    assert_eq!(found.get(1), "ART10");
}

#[test]
fn nothing_matches_nothing() {
    let re = make_regex(".*").unwrap();
    assert_eq!(match_all(&ids(&[]), &re).len(), 0);
    let none = make_regex("X").unwrap();
    assert_eq!(match_all(&ids(&["A", "B"]), &none).len(), 0);
    assert_eq!(match_groups(&ids(&["A", "B"]), &none, "$0").len(), 0);
}

#[test]
fn the_empty_pattern_matches_the_empty_identifier_only() {
    let re = make_regex("").unwrap();
    let found = match_all(&ids(&["", "A"]), &re);
    assert_eq!(found.len(), 1);
    assert!(found.contains(""));
}

#[test]
fn expansion_puts_the_captured_groups_in() {
    let re = make_regex("(?P<family>[A-Z]+)(\\d+)_CH(\\d)").unwrap();
    assert_eq!(match_expand("TIM12_CH3", &re, "$family/$2/$3"), Some("TIM/12/3".to_string()));
    assert_eq!(match_expand("TIM12_CH3", &re, "${family}x${3}"), Some("TIMx3".to_string()));
    assert_eq!(match_expand("TIM12_CH3", &re, "$0"), Some("TIM12_CH3".to_string()));
    assert_eq!(match_expand("TIM12_CH3", &re, "plain"), Some("plain".to_string()));
    assert_eq!(match_expand("TIM12_CH3", &re, "$$1"), Some("$1".to_string()));
    assert_eq!(match_expand("TIM12_CH3", &re, "$9"), Some("".to_string()));
    assert_eq!(match_expand("TIM12_CH", &re, "$family"), None);
    assert_eq!(match_expand("xTIM12_CH3", &re, "$family"), None);
    assert_eq!(match_expand("TIM12_CH3x", &re, "$family"), None);
}

#[test]
fn channels_are_grouped_by_timer() {
    let re = make_regex("^TIM(\\d)_CH\\d$").unwrap();
    let groups = match_groups(&ids(&["TIM1_CH1", "TIM1_CH2", "TIM2_CH1"]), &re, "TIM$1");
    assert_eq!(groups.len(), 2);
    assert_eq!(groups[0].key, "TIM1");
    assert_eq!(groups[0].members.len(), 2);
    assert!(groups[0].members.contains("TIM1_CH1"));
    assert!(groups[0].members.contains("TIM1_CH2"));
    assert!(!groups[0].members.contains("TIM2_CH1"));
    assert_eq!(groups[1].key, "TIM2");
    assert_eq!(groups[1].members.len(), 1);
    assert!(groups[1].members.contains("TIM2_CH1"));
}

#[test]
fn identifiers_that_do_not_match_are_in_no_group() {
    let re = make_regex("(SPI|I2C)(\\d)").unwrap();
    let groups =
        match_groups(&ids(&["SPI1", "UART1", "I2C1", "SPI2", "SPI10", "I2C1", "SPI1"]), &re, "$1");
    assert_eq!(groups.len(), 2);
    assert_eq!(groups[0].key, "SPI");
    assert_eq!(groups[0].members.len(), 2);
    assert_eq!(groups[0].members.get(0), "SPI1");
    assert_eq!(groups[0].members.get(1), "SPI2");
    assert_eq!(groups[1].key, "I2C");
    assert_eq!(groups[1].members.len(), 1);
    assert_eq!(groups[1].members.get(0), "I2C1");
}
