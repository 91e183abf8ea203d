use chiptool::generate::device::render_device_x;
use chiptool::ir::{Device, Interrupt, IR};

fn interrupt(name: &str, value: u32) -> Interrupt {
    Interrupt { name: name.to_string(), description: None, value }
}

fn device(interrupts: Vec<Interrupt>) -> Device {
    Device { nvic_priority_bits: None, peripherals: vec![], interrupts }
}

#[test]
fn no_interrupts_give_no_text() {
    assert_eq!(render_device_x(&IR::new(), &device(vec![])), "");
}

#[test]
fn interrupts_are_listed_by_value() {
    let d = device(vec![interrupt("USART1", 37), interrupt("WWDG", 0), interrupt("TIM2", 28)]);
    assert_eq!(
        render_device_x(&IR::new(), &d),
        "PROVIDE(WWDG = DefaultHandler);\nPROVIDE(TIM2 = DefaultHandler);\nPROVIDE(USART1 = DefaultHandler);\n"
    );
}

#[test]
fn interrupts_of_equal_value_keep_their_order() {
    let d = device(vec![
        interrupt("B", 2),
        interrupt("A", 0),
        interrupt("C", 2),
        interrupt("D", 1),
        interrupt("E", 2),
    ]);
    assert_eq!(
        render_device_x(&IR::new(), &d),
        "PROVIDE(A = DefaultHandler);\nPROVIDE(D = DefaultHandler);\nPROVIDE(B = DefaultHandler);\nPROVIDE(C = DefaultHandler);\nPROVIDE(E = DefaultHandler);\n"
    );
}

#[test]
fn the_vector_table_reserves_the_slots_between() {
    let d = device(vec![interrupt("C", 5), interrupt("A", 1), interrupt("B", 2)]);
    assert_eq!(
        chiptool::generate::device::vector_table(&d),
        vec![None, Some(1), Some(2), None, None, Some(0)]
    );
    assert_eq!(chiptool::generate::device::interrupt_order(&d), vec![1, 2, 0]);
    assert_eq!(chiptool::generate::device::vector_table(&device(vec![])), vec![]);
}

#[test]
fn interrupts_of_one_value_take_the_next_slots() {
    let d = device(vec![interrupt("A", 1), interrupt("B", 1), interrupt("C", 2), interrupt("D", 5)]);
    assert_eq!(
        chiptool::generate::device::vector_table(&d),
        vec![None, Some(0), Some(1), Some(2), None, Some(3)]
    );
}

#[test]
fn peripherals_are_ordered_by_base_address() {
    let mut d = device(vec![]);
    for (name, base_address) in [("B", 0x4000_1000u64), ("A", 0x4000_0000), ("C", 0x4000_1000)] {
        d.peripherals.push(chiptool::ir::Peripheral {
            name: name.to_string(),
            description: None,
            base_address,
            block: None,
        });
    }
    assert_eq!(chiptool::generate::device::peripheral_order(&d), vec![1, 0, 2]);
    assert_eq!(chiptool::generate::device::order_by_key(&vec![3, 1, 2, 1, 0]), vec![4, 1, 3, 2, 0]);
}
