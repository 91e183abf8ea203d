use chiptool::ir::{Enum, EnumVariant, Field, FieldSet, IR};
use chiptool::pattern::make_regex;
use chiptool::transform::describe::{
    append_variant_desc_to_field, describe_variants, extract_variant_desc,
    extract_variant_desc_with, DescMap,
};

fn variant(name: &str, description: Option<&str>, value: u64) -> EnumVariant {
    EnumVariant { name: name.to_string(), description: description.map(|d| d.to_string()), value }
}

fn field(name: &str, description: Option<&str>, bit_size: u32, enumm: Option<&str>) -> Field {
    Field {
        name: name.to_string(),
        description: description.map(|d| d.to_string()),
        bit_offset: 0,
        bit_size,
        array: None,
        enumm: enumm.map(|e| e.to_string()),
    }
}

fn sample() -> IR {
    let mut ir = IR::new();
    ir.enums.push((
        "Mode".to_string(),
        Enum {
            description: None,
            bit_size: 2,
            variants: vec![
                variant("OFF", Some("Switched off"), 0),
                variant("ON", None, 1),
                variant("AUTO", Some("By itself"), 3),
            ],
        },
    ));
    ir.enums.push((
        "Mode2".to_string(),
        Enum { description: None, bit_size: 4, variants: vec![variant("TEN", Some("ten"), 10)] },
    ));
    ir.enums.push(("Empty".to_string(), Enum { description: None, bit_size: 2, variants: vec![] }));
    ir.enums.push((
        "Wide".to_string(),
        Enum {
            description: None,
            bit_size: 64,
            variants: vec![variant("MAX", Some("all ones"), u64::MAX), variant("K", None, 1000)],
        },
    ));
    ir.fieldsets.push((
        "Cr".to_string(),
        FieldSet {
            description: None,
            bit_size: 32,
            fields: vec![
                field("MODE", Some("Mode of operation"), 2, Some("Mode")),
                field("ALT", None, 2, Some("Mode")),
                field("WIDE", Some("Wide"), 4, Some("Mode")),
                field("PLAIN", Some("No enum"), 2, None),
                field("OTHER", Some("Other enum"), 2, Some("Mode2")),
            ],
        },
    ));
    ir
}

const MODE_LINES: &str = "0: Switched off\n1: \n3: By itself\n";

#[test]
fn variants_are_described_line_by_line() {
    let ir = sample();
    assert_eq!(describe_variants(&ir.enums[0].1), MODE_LINES);
    assert_eq!(describe_variants(&ir.enums[1].1), "10: ten\n");
    assert_eq!(describe_variants(&ir.enums[2].1), "");
    assert_eq!(describe_variants(&ir.enums[3].1), "18446744073709551615: all ones\n1000: \n");
}

#[test]
fn enums_are_selected_by_pattern() {
    let ir = sample();
    let descs = extract_variant_desc(&ir, "Mode\\d?", None).unwrap();
    assert_eq!(descs.len(), 2);
    assert_eq!(descs.get("Mode"), Some(&MODE_LINES.to_string()));
    assert_eq!(descs.get("Mode2"), Some(&"10: ten\n".to_string()));
    assert_eq!(descs.get("Empty"), None);
    let whole = extract_variant_desc(&ir, "Mod", None).unwrap();
    assert_eq!(whole.len(), 0);
}

#[test]
fn enums_are_selected_by_bit_size() {
    let ir = sample();
    let descs = extract_variant_desc(&ir, ".*", Some(2)).unwrap();
    assert_eq!(descs.len(), 2);
    assert_eq!(descs.get("Mode"), Some(&MODE_LINES.to_string()));
    assert_eq!(descs.get("Empty"), Some(&"".to_string()));
    assert_eq!(descs.get("Mode2"), None);
    let all = extract_variant_desc(&ir, ".*", None).unwrap();
    assert_eq!(all.len(), 4);
    let re = make_regex("Mode").unwrap();
    assert_eq!(extract_variant_desc_with(&ir, &re, Some(4)).len(), 0);
    assert_eq!(extract_variant_desc_with(&ir, &re, Some(2)).len(), 1);
}

#[test]
fn a_malformed_pattern_is_an_error() {
    assert!(extract_variant_desc(&sample(), "Mode(", None).is_err());
    assert!(extract_variant_desc(&sample(), "Mode)(2", None).is_err());
}

#[test]
fn every_alternative_must_match_the_whole_identifier_of_an_enum() {
    let descs = extract_variant_desc(&sample(), "Mod|Mode|ode2|Wide", None).unwrap();
    assert_eq!(descs.len(), 2);
    assert_eq!(descs.get("Mode"), Some(&MODE_LINES.to_string()));
    assert!(descs.get("Wide").is_some());
    assert_eq!(descs.get("Mode2"), None);
}

#[test]
fn the_later_of_two_enums_with_one_identifier_counts() {
    let mut ir = sample();
    ir.enums.push((
        "Mode".to_string(),
        Enum { description: None, bit_size: 2, variants: vec![variant("X", Some("x"), 2)] },
    ));
    let descs = extract_variant_desc(&ir, "Mode", None).unwrap();
    assert_eq!(descs.len(), 1);
    assert_eq!(descs.get("Mode"), Some(&"2: x\n".to_string()));
}

#[test]
fn descriptions_are_appended_to_the_fields_of_the_enum() {
    let mut ir = sample();
    let descs = extract_variant_desc(&ir, "Mode", None).unwrap();
    append_variant_desc_to_field(&mut ir, &descs, None);
    let mut expected = sample();
    expected.fieldsets[0].1.fields[0].description =
        Some(format!("Mode of operation\n{}", MODE_LINES));
    expected.fieldsets[0].1.fields[1].description = Some(MODE_LINES.to_string());
    expected.fieldsets[0].1.fields[2].description = Some(format!("Wide\n{}", MODE_LINES));
    assert_eq!(ir, expected);
}

#[test]
fn only_fields_of_the_given_bit_size_take_a_description() {
    let mut ir = sample();
    let descs = extract_variant_desc(&ir, "Mode\\d?", None).unwrap();
    append_variant_desc_to_field(&mut ir, &descs, Some(2));
    let mut expected = sample();
    expected.fieldsets[0].1.fields[0].description =
        Some(format!("Mode of operation\n{}", MODE_LINES));
    expected.fieldsets[0].1.fields[1].description = Some(MODE_LINES.to_string());
    expected.fieldsets[0].1.fields[4].description = Some("Other enum\n10: ten\n".to_string());
    assert_eq!(ir, expected);
}

#[test]
fn appending_twice_appends_the_text_twice() {
    let mut ir = sample();
    let descs = extract_variant_desc(&ir, "Mode", None).unwrap();
    append_variant_desc_to_field(&mut ir, &descs, None);
    append_variant_desc_to_field(&mut ir, &descs, None);
    assert_eq!(
        ir.fieldsets[0].1.fields[0].description,
        Some(format!("Mode of operation\n{}\n{}", MODE_LINES, MODE_LINES))
    );
    assert_eq!(
        ir.fieldsets[0].1.fields[1].description,
        Some(format!("{}\n{}", MODE_LINES, MODE_LINES))
    );
    assert_eq!(ir.fieldsets[0].1.fields[3].description, Some("No enum".to_string()));
}

#[test]
fn a_map_made_by_hand_is_taken_too() {
    let mut ir = sample();
    let mut descs = DescMap::new();
    descs.insert("Mode2".to_string(), "by hand".to_string());
    descs.insert("Absent".to_string(), "unused".to_string());
    append_variant_desc_to_field(&mut ir, &descs, None);
    let mut expected = sample();
    expected.fieldsets[0].1.fields[4].description = Some("Other enum\nby hand".to_string());
    assert_eq!(ir, expected);
    let empty = DescMap::new();
    append_variant_desc_to_field(&mut ir, &empty, None);
    assert_eq!(ir, expected);
}
