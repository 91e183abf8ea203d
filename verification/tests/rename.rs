use chiptool::idset::IdSet;
use chiptool::ir::{
    Access, Block, BlockItem, BlockItemBlock, BlockItemInner, Device, Field, FieldSet, Peripheral,
    Register, IR,
};
use chiptool::transform::rename::{replace_block_ids, replace_enum_ids, replace_fieldset_ids};

fn set(names: &[&str]) -> IdSet {
    let mut s = IdSet::new();
    for n in names {
        s.insert(n.to_string());
    }
    s
}

fn field(name: &str, enumm: Option<&str>) -> Field {
    Field {
        name: name.to_string(),
        description: None,
        bit_offset: 0,
        bit_size: 1,
        array: None,
        enumm: enumm.map(|e| e.to_string()),
    }
}

fn register(name: &str, fieldset: Option<&str>) -> BlockItem {
    BlockItem {
        name: name.to_string(),
        description: None,
        array: None,
        byte_offset: 0,
        inner: BlockItemInner::Register(Register {
            access: Access::ReadWrite,
            bit_size: 32,
            fieldset: fieldset.map(|f| f.to_string()),
        }),
    }
}

fn nested(name: &str, block: &str) -> BlockItem {
    BlockItem {
        name: name.to_string(),
        description: None,
        array: None,
        byte_offset: 16,
        inner: BlockItemInner::Block(BlockItemBlock { block: block.to_string() }),
    }
}

fn peripheral(name: &str, block: Option<&str>) -> Peripheral {
    Peripheral {
        name: name.to_string(),
        description: None,
        base_address: 0x4000_0000,
        block: block.map(|b| b.to_string()),
    }
}

fn sample() -> IR {
    let mut ir = IR::new();
    ir.fieldsets.push((
        "Cr".to_string(),
        FieldSet {
            description: None,
            bit_size: 32,
            fields: vec![
                field("A", Some("OLD_ENUM")),
                field("B", None),
                field("C", Some("OTHER")),
                field("D", Some("NEW_ENUM")),
            ],
        },
    ));
    ir.fieldsets.push((
        "Sr".to_string(),
        FieldSet { description: None, bit_size: 16, fields: vec![field("E", Some("OLD_ENUM"))] },
    ));
    ir.blocks.push((
        "Tim".to_string(),
        Block {
            description: None,
            items: vec![
                register("CR", Some("Cr")),
                register("SR", Some("Sr")),
                register("DR", None),
                nested("CH", "Chan"),
                nested("ALT", "Tim"),
            ],
        },
    ));
    ir.blocks.push(("Chan".to_string(), Block { description: None, items: vec![] }));
    ir.devices.push((
        "chip".to_string(),
        Device {
            nvic_priority_bits: Some(4),
            peripherals: vec![
                peripheral("TIM1", Some("Tim")),
                peripheral("TIM2", Some("TimV2")),
                peripheral("RAW", None),
            ],
            interrupts: vec![],
        },
    ));
    ir
}

#[test]
fn references_to_the_old_enum_are_repointed() {
    let mut ir = sample();
    replace_enum_ids(&mut ir, &set(&["OLD_ENUM"]), "NEW_ENUM".to_string());
    let mut expected = sample();
    expected.fieldsets[0].1.fields[0].enumm = Some("NEW_ENUM".to_string());
    expected.fieldsets[1].1.fields[0].enumm = Some("NEW_ENUM".to_string());
    assert_eq!(ir, expected);
    for (_, fs) in ir.fieldsets.iter() {
        for f in fs.fields.iter() {
            assert_ne!(f.enumm, Some("OLD_ENUM".to_string()));
        }
    }
    let once = ir.clone();
    replace_enum_ids(&mut ir, &set(&["OLD_ENUM"]), "NEW_ENUM".to_string());
    assert_eq!(ir, once);
}

#[test]
fn several_enums_are_repointed_at_once() {
    let mut ir = sample();
    replace_enum_ids(&mut ir, &set(&["OLD_ENUM", "OTHER", "ABSENT"]), "Merged".to_string());
    let mut expected = sample();
    expected.fieldsets[0].1.fields[0].enumm = Some("Merged".to_string());
    expected.fieldsets[0].1.fields[2].enumm = Some("Merged".to_string());
    expected.fieldsets[1].1.fields[0].enumm = Some("Merged".to_string());
    assert_eq!(ir, expected);
}

#[test]
fn a_set_that_matches_nothing_changes_nothing() {
    let mut ir = sample();
    replace_enum_ids(&mut ir, &set(&["ABSENT"]), "NEW_ENUM".to_string());
    replace_enum_ids(&mut ir, &set(&[]), "NEW_ENUM".to_string());
    replace_fieldset_ids(&mut ir, &set(&["ABSENT"]), "X".to_string());
    replace_block_ids(&mut ir, &set(&["ABSENT"]), "X".to_string());
    assert_eq!(ir, sample());
}

#[test]
fn references_to_field_sets_are_repointed_in_registers_only() {
    let mut ir = sample();
    replace_fieldset_ids(&mut ir, &set(&["Cr", "Sr", "Chan", "Tim"]), "Common".to_string());
    let mut expected = sample();
    expected.blocks[0].1.items[0] = register("CR", Some("Common"));
    expected.blocks[0].1.items[1] = register("SR", Some("Common"));
    assert_eq!(ir, expected);
    let once = ir.clone();
    replace_fieldset_ids(&mut ir, &set(&["Cr", "Sr", "Chan", "Tim"]), "Common".to_string());
    assert_eq!(ir, once);
}

#[test]
fn references_to_blocks_are_repointed_in_peripherals_and_nested_blocks() {
    let mut ir = sample();
    replace_block_ids(&mut ir, &set(&["Tim", "TimV2", "Cr"]), "Timer".to_string());
    let mut expected = sample();
    expected.devices[0].1.peripherals[0].block = Some("Timer".to_string());
    expected.devices[0].1.peripherals[1].block = Some("Timer".to_string());
    expected.blocks[0].1.items[4] = nested("ALT", "Timer");
    assert_eq!(ir, expected);
    let once = ir.clone();
    replace_block_ids(&mut ir, &set(&["Tim", "TimV2", "Cr"]), "Timer".to_string());
    assert_eq!(ir, once);
}

#[test]
fn the_new_identifier_may_be_one_of_the_old() {
    let mut ir = sample();
    replace_enum_ids(&mut ir, &set(&["OLD_ENUM", "NEW_ENUM"]), "NEW_ENUM".to_string());
    let mut expected = sample();
    expected.fieldsets[0].1.fields[0].enumm = Some("NEW_ENUM".to_string());
    expected.fieldsets[1].1.fields[0].enumm = Some("NEW_ENUM".to_string());
    assert_eq!(ir, expected);
}

#[test]
fn an_id_set_holds_each_identifier_once() {
    let mut s = IdSet::new();
    assert_eq!(s.len(), 0);
    assert!(s.insert("B".to_string()));
    assert!(s.insert("A".to_string()));
    assert!(!s.insert("B".to_string()));
    assert_eq!(s.len(), 2);
    assert_eq!(s.get(0), "B");
    assert_eq!(s.get(1), "A");
    assert!(s.contains("A"));
    assert!(!s.contains("C"));
}

#[test]
fn identifiers_are_unique_before_and_after() {
    let mut ir = sample();
    assert!(ir.has_unique_ids());
    replace_enum_ids(&mut ir, &set(&["OLD_ENUM"]), "NEW_ENUM".to_string());
    replace_fieldset_ids(&mut ir, &set(&["Cr"]), "Sr".to_string());
    replace_block_ids(&mut ir, &set(&["Tim"]), "Chan".to_string());
    assert!(ir.has_unique_ids());
    ir.blocks.push(("Tim".to_string(), Block { description: None, items: vec![] }));
    assert!(!ir.has_unique_ids());
    assert!(IR::new().has_unique_ids());
}
