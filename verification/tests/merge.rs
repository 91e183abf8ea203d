use chiptool::ir::{Array, CursedArray, Enum, EnumVariant, Field, FieldSet, RegularArray};
use chiptool::transform::common::{
    check_mergeable_enums, check_mergeable_enums_inner, check_mergeable_fieldsets,
    check_mergeable_fieldsets_inner, mergeable_fields, mergeable_variants, CheckLevel, MergeCause,
    MAX_FIELDS, MAX_VARIANTS,
};

fn variant(name: &str, description: Option<&str>, value: u64) -> EnumVariant {
    EnumVariant { name: name.to_string(), description: description.map(|d| d.to_string()), value }
}

fn enumeration(bit_size: u32, variants: Vec<EnumVariant>) -> Enum {
    Enum { description: None, bit_size, variants }
}

fn field(name: &str, bit_offset: u32, bit_size: u32) -> Field {
    Field {
        name: name.to_string(),
        description: None,
        bit_offset,
        bit_size,
        array: None,
        enumm: None,
    }
}

fn fieldset(bit_size: u32, fields: Vec<Field>) -> FieldSet {
    FieldSet { description: None, bit_size, fields }
}

const LEVELS: [CheckLevel; 4] =
    [CheckLevel::NoCheck, CheckLevel::Layout, CheckLevel::Names, CheckLevel::Descriptions];

#[test]
fn default_level_is_names() {
    assert_eq!(CheckLevel::default(), CheckLevel::Names);
}

#[test]
fn levels_are_ordered() {
    assert!(CheckLevel::NoCheck < CheckLevel::Layout);
    assert!(CheckLevel::Layout < CheckLevel::Names);
    assert!(CheckLevel::Names < CheckLevel::Descriptions);
    assert!(CheckLevel::Descriptions.at_least(CheckLevel::Layout));
    assert!(CheckLevel::Names.at_least(CheckLevel::Names));
    assert!(!CheckLevel::NoCheck.at_least(CheckLevel::Layout));
    assert!(!CheckLevel::Names.at_least(CheckLevel::Descriptions));
}

#[test]
fn enum_is_mergeable_with_itself() {
    let a = enumeration(
        2,
        vec![
            variant("OFF", Some("Disabled"), 0),
            variant("ON", None, 1),
            variant("ON", None, 1),
            variant("AUTO", Some(""), 2),
        ],
    );
    for level in LEVELS {
        assert_eq!(check_mergeable_enums_inner(&a, &a, level), Ok(()));
        assert!(check_mergeable_enums(&a, &a, level).is_ok());
    }
}

#[test]
fn empty_enums_are_mergeable() {
    let a = enumeration(4, vec![]);
    let b = enumeration(4, vec![]);
    for level in LEVELS {
        assert_eq!(check_mergeable_enums_inner(&a, &b, level), Ok(()));
    }
}

#[test]
fn enums_of_different_bit_size_fail_at_every_level() {
    let a = enumeration(2, vec![variant("A", None, 0)]);
    let b = enumeration(3, vec![variant("A", None, 0)]);
    for level in LEVELS {
        assert_eq!(
            check_mergeable_enums_inner(&a, &b, level),
            Err(MergeCause::BitSize { first: 2, second: 3 })
        );
    }
}

#[test]
fn fieldsets_of_different_bit_size_fail_at_every_level() {
    let a = fieldset(32, vec![field("A", 0, 1)]);
    let b = fieldset(16, vec![field("A", 0, 1)]);
    for level in LEVELS {
        assert_eq!(
            check_mergeable_fieldsets_inner(&a, &b, level),
            Err(MergeCause::BitSize { first: 32, second: 16 })
        );
        let refused = check_mergeable_fieldsets(&a, &b, level).unwrap_err();
        assert_eq!(refused.cause, MergeCause::BitSize { first: 32, second: 16 });
        assert_eq!(refused.first, &a);
        assert_eq!(refused.second, &b);
    }
}

#[test]
fn swapped_variants_with_other_names_merge_at_layout_only() {
    let a = enumeration(1, vec![variant("OFF", None, 0), variant("ON", None, 1)]);
    let b = enumeration(1, vec![variant("ENABLED", None, 1), variant("DISABLED", None, 0)]);
    assert_eq!(check_mergeable_enums_inner(&a, &b, CheckLevel::NoCheck), Ok(()));
    assert_eq!(check_mergeable_enums_inner(&a, &b, CheckLevel::Layout), Ok(()));
    assert_eq!(
        check_mergeable_enums_inner(&a, &b, CheckLevel::Names),
        Err(MergeCause::NoMatch { index: 0 })
    );
    assert_eq!(
        check_mergeable_enums_inner(&a, &b, CheckLevel::Descriptions),
        Err(MergeCause::NoMatch { index: 0 })
    );
    let refused = check_mergeable_enums(&a, &b, CheckLevel::Names).unwrap_err();
    assert_eq!(refused.cause, MergeCause::NoMatch { index: 0 });
    assert_eq!(refused.first, &a);
    assert_eq!(refused.second, &b);
}

#[test]
fn swapped_variants_with_equal_names_merge_at_names() {
    let a = enumeration(1, vec![variant("OFF", Some("off"), 0), variant("ON", None, 1)]);
    let b = enumeration(1, vec![variant("ON", None, 1), variant("OFF", None, 0)]);
    assert_eq!(check_mergeable_enums_inner(&a, &b, CheckLevel::Names), Ok(()));
    assert_eq!(
        check_mergeable_enums_inner(&a, &b, CheckLevel::Descriptions),
        Err(MergeCause::NoMatch { index: 0 })
    );
}

#[test]
fn absent_and_empty_description_differ() {
    let a = enumeration(1, vec![variant("A", None, 0)]);
    let b = enumeration(1, vec![variant("A", Some(""), 0)]);
    assert_eq!(check_mergeable_enums_inner(&a, &b, CheckLevel::Names), Ok(()));
    assert_eq!(
        check_mergeable_enums_inner(&a, &b, CheckLevel::Descriptions),
        Err(MergeCause::NoMatch { index: 0 })
    );
}

#[test]
fn different_variant_count_fails_from_layout_on() {
    let a = enumeration(2, vec![variant("A", None, 0), variant("B", None, 1)]);
    let b = enumeration(2, vec![variant("A", None, 0)]);
    assert_eq!(check_mergeable_enums_inner(&a, &b, CheckLevel::NoCheck), Ok(()));
    assert_eq!(check_mergeable_enums_inner(&a, &b, CheckLevel::Layout), Err(MergeCause::Count));
    assert_eq!(check_mergeable_enums_inner(&b, &a, CheckLevel::Names), Err(MergeCause::Count));
}

#[test]
fn a_partner_is_taken_once() {
    let a = enumeration(2, vec![variant("A", None, 0), variant("B", None, 0)]);
    let b = enumeration(2, vec![variant("A", None, 0), variant("B", None, 1)]);
    assert_eq!(
        check_mergeable_enums_inner(&a, &b, CheckLevel::Layout),
        Err(MergeCause::NoMatch { index: 1 })
    );
    assert_eq!(
        check_mergeable_enums_inner(&b, &a, CheckLevel::Layout),
        Err(MergeCause::NoMatch { index: 1 })
    );
}

#[test]
fn the_first_variant_without_partner_is_reported() {
    let a = enumeration(
        4,
        vec![variant("A", None, 0), variant("B", None, 5), variant("C", None, 6)],
    );
    let b = enumeration(
        4,
        vec![variant("C", None, 7), variant("A", None, 0), variant("B", None, 8)],
    );
    assert_eq!(
        check_mergeable_enums_inner(&a, &b, CheckLevel::Layout),
        Err(MergeCause::NoMatch { index: 1 })
    );
}

#[test]
fn too_many_variants_are_refused() {
    let many: Vec<EnumVariant> =
        (0..(MAX_VARIANTS as u64 + 1)).map(|v| variant("V", None, v)).collect();
    let a = enumeration(16, many);
    assert_eq!(check_mergeable_enums_inner(&a, &a, CheckLevel::NoCheck), Ok(()));
    assert_eq!(check_mergeable_enums_inner(&a, &a, CheckLevel::Layout), Err(MergeCause::Capacity));
    assert_eq!(
        check_mergeable_enums_inner(&a, &a, CheckLevel::Descriptions),
        Err(MergeCause::Capacity)
    );
}

#[test]
fn the_most_variants_are_accepted() {
    let many: Vec<EnumVariant> = (0..MAX_VARIANTS as u64).map(|v| variant("V", None, v)).collect();
    let mut reversed = many.clone();
    reversed.reverse();
    let a = enumeration(16, many);
    let b = enumeration(16, reversed);
    assert_eq!(check_mergeable_enums_inner(&a, &b, CheckLevel::Descriptions), Ok(()));
}

#[test]
fn too_many_fields_are_refused() {
    let many: Vec<Field> = (0..(MAX_FIELDS as u32 + 1)).map(|o| field("F", o, 1)).collect();
    let a = fieldset(256, many);
    assert_eq!(check_mergeable_fieldsets_inner(&a, &a, CheckLevel::NoCheck), Ok(()));
    assert_eq!(
        check_mergeable_fieldsets_inner(&a, &a, CheckLevel::Layout),
        Err(MergeCause::Capacity)
    );
    let most: Vec<Field> = (0..MAX_FIELDS as u32).map(|o| field("F", o, 1)).collect();
    let b = fieldset(256, most);
    assert_eq!(check_mergeable_fieldsets_inner(&b, &b, CheckLevel::Descriptions), Ok(()));
}

#[test]
fn fieldset_is_mergeable_with_itself() {
    let mut f = field("MODE", 4, 2);
    f.enumm = Some("Mode".to_string());
    f.array = Some(Array::Cursed(CursedArray { offsets: vec![0, 4, 10] }));
    f.description = Some("The mode".to_string());
    let a = fieldset(32, vec![field("EN", 0, 1), f, field("EN", 0, 1)]);
    for level in LEVELS {
        assert_eq!(check_mergeable_fieldsets_inner(&a, &a, level), Ok(()));
        assert!(check_mergeable_fieldsets(&a, &a, level).is_ok());
    }
}

#[test]
fn fields_pair_up_in_any_order() {
    let a = fieldset(8, vec![field("A", 0, 1), field("B", 1, 2), field("C", 3, 5)]);
    let b = fieldset(8, vec![field("Z", 3, 5), field("Y", 0, 1), field("X", 1, 2)]);
    assert_eq!(check_mergeable_fieldsets_inner(&a, &b, CheckLevel::Layout), Ok(()));
    assert_eq!(
        check_mergeable_fieldsets_inner(&a, &b, CheckLevel::Names),
        Err(MergeCause::NoMatch { index: 0 })
    );
    let c = fieldset(8, vec![field("A", 0, 1), field("B", 1, 2)]);
    assert_eq!(check_mergeable_fieldsets_inner(&a, &c, CheckLevel::Layout), Err(MergeCause::Count));
}

#[test]
fn field_layout_reads_offset_size_enum_and_array() {
    let base = field("F", 8, 4);
    let mut other = base.clone();
    assert!(mergeable_fields(&base, &other, CheckLevel::Descriptions));
    other.bit_offset = 9;
    assert!(!mergeable_fields(&base, &other, CheckLevel::Layout));
    assert!(mergeable_fields(&base, &other, CheckLevel::NoCheck));
    other = base.clone();
    other.bit_size = 5;
    assert!(!mergeable_fields(&base, &other, CheckLevel::Layout));
    other = base.clone();
    other.enumm = Some("E".to_string());
    assert!(!mergeable_fields(&base, &other, CheckLevel::Layout));
    let mut same_enum = base.clone();
    same_enum.enumm = Some("E".to_string());
    assert!(mergeable_fields(&same_enum, &other, CheckLevel::Layout));
    same_enum.enumm = Some("F".to_string());
    assert!(!mergeable_fields(&same_enum, &other, CheckLevel::Layout));
    other = base.clone();
    other.array = Some(Array::Regular(RegularArray { len: 4, stride: 2 }));
    assert!(!mergeable_fields(&base, &other, CheckLevel::Layout));
    let mut arrayed = base.clone();
    arrayed.array = Some(Array::Regular(RegularArray { len: 4, stride: 2 }));
    assert!(mergeable_fields(&arrayed, &other, CheckLevel::Layout));
    arrayed.array = Some(Array::Regular(RegularArray { len: 4, stride: 3 }));
    assert!(!mergeable_fields(&arrayed, &other, CheckLevel::Layout));
    arrayed.array = Some(Array::Cursed(CursedArray { offsets: vec![0, 2, 4, 6] }));
    assert!(!mergeable_fields(&arrayed, &other, CheckLevel::Layout));
    other.array = Some(Array::Cursed(CursedArray { offsets: vec![0, 2, 4, 6] }));
    assert!(mergeable_fields(&arrayed, &other, CheckLevel::Layout));
    other.array = Some(Array::Cursed(CursedArray { offsets: vec![0, 2, 4, 7] }));
    assert!(!mergeable_fields(&arrayed, &other, CheckLevel::Layout));
    other.array = Some(Array::Cursed(CursedArray { offsets: vec![0, 2, 4] }));
    assert!(!mergeable_fields(&arrayed, &other, CheckLevel::Layout));
}

#[test]
fn field_names_and_descriptions_count_from_their_level_on() {
    let a = field("A", 0, 1);
    let mut b = field("B", 0, 1);
    assert!(mergeable_fields(&a, &b, CheckLevel::Layout));
    assert!(!mergeable_fields(&a, &b, CheckLevel::Names));
    b.name = "A".to_string();
    b.description = Some("text".to_string());
    assert!(mergeable_fields(&a, &b, CheckLevel::Names));
    assert!(!mergeable_fields(&a, &b, CheckLevel::Descriptions));
}

#[test]
fn variants_agree_by_level() {
    let a = variant("A", Some("x"), 1);
    let b = variant("B", Some("y"), 2);
    assert!(mergeable_variants(&a, &b, CheckLevel::NoCheck));
    assert!(!mergeable_variants(&a, &b, CheckLevel::Layout));
    let c = variant("B", Some("y"), 1);
    assert!(mergeable_variants(&a, &c, CheckLevel::Layout));
    assert!(!mergeable_variants(&a, &c, CheckLevel::Names));
    let d = variant("A", Some("y"), 1);
    assert!(mergeable_variants(&a, &d, CheckLevel::Names));
    assert!(!mergeable_variants(&a, &d, CheckLevel::Descriptions));
    let e = variant("A", Some("x"), 1);
    assert!(mergeable_variants(&a, &e, CheckLevel::Descriptions));
}

#[test]
fn the_order_of_the_two_enums_does_not_count() {
    let a = enumeration(
        2,
        vec![variant("A", None, 0), variant("B", None, 1), variant("A", None, 0)],
    );
    let b = enumeration(
        2,
        vec![variant("B", None, 1), variant("A", None, 0), variant("A", None, 0)],
    );
    let c = enumeration(
        2,
        vec![variant("B", None, 1), variant("B", None, 1), variant("A", None, 0)],
    );
    for level in LEVELS {
        assert_eq!(check_mergeable_enums_inner(&a, &b, level), Ok(()));
        assert_eq!(check_mergeable_enums_inner(&b, &a, level), Ok(()));
        assert_eq!(
            check_mergeable_enums_inner(&a, &c, level).is_ok(),
            check_mergeable_enums_inner(&c, &a, level).is_ok()
        );
    }
    assert_eq!(
        check_mergeable_enums_inner(&a, &c, CheckLevel::Layout),
        Err(MergeCause::NoMatch { index: 2 })
    );
    assert_eq!(
        check_mergeable_enums_inner(&c, &a, CheckLevel::Layout),
        Err(MergeCause::NoMatch { index: 1 })
    );
}
