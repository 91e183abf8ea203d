//! The in-memory description of a chip: devices, register blocks, field sets
//! and enumerations, each collection keyed by identifier.
//!
//! Every type has a view: the same data with strings as `Seq<char>` and
//! vectors as `Seq`. All contracts of the crate are stated over these views.
use vstd::prelude::*;
use crate::idset::IdSet;

verus! {

/// The view of an optional string.
pub open spec fn opt_text(o: Option<String>) -> Option<Seq<char>> {
    match o {
        Some(s) => Some(s@),
        None => None,
    }
}

/// A repetition with uniform spacing.
#[derive(Clone, Copy, Debug, PartialEq, Eq)]
pub struct RegularArray {
    pub len: u32,
    pub stride: u32,
}

/// A repetition given as an explicit list of relative offsets.
#[derive(Clone, Debug, PartialEq, Eq)]
pub struct CursedArray {
    pub offsets: Vec<u32>,
}

/// How a field or block item repeats.
#[derive(Clone, Debug, PartialEq, Eq)]
pub enum Array {
    Regular(RegularArray),
    Cursed(CursedArray),
}

pub enum ArrayView {
    Regular { len: u32, stride: u32 },
    Cursed { offsets: Seq<u32> },
}

impl View for Array {
    type V = ArrayView;

    open spec fn view(&self) -> ArrayView {
        match *self {
            Array::Regular(r) => ArrayView::Regular { len: r.len, stride: r.stride },
            Array::Cursed(c) => ArrayView::Cursed { offsets: c.offsets@ },
        }
    }
}

/// The view of an optional array shape.
pub open spec fn opt_array(o: Option<Array>) -> Option<ArrayView> {
    match o {
        Some(a) => Some(a@),
        None => None,
    }
}

/// One value of an enumeration.
#[derive(Clone, Debug, PartialEq, Eq)]
pub struct EnumVariant {
    pub name: String,
    pub description: Option<String>,
    pub value: u64,
}

pub struct EnumVariantView {
    pub name: Seq<char>,
    pub description: Option<Seq<char>>,
    pub value: u64,
}

impl View for EnumVariant {
    type V = EnumVariantView;

    open spec fn view(&self) -> EnumVariantView {
        EnumVariantView {
            name: self.name@,
            description: opt_text(self.description),
            value: self.value,
        }
    }
}

/// A named value space of `bit_size` bits.
#[derive(Clone, Debug, PartialEq, Eq)]
pub struct Enum {
    pub description: Option<String>,
    pub bit_size: u32,
    pub variants: Vec<EnumVariant>,
}

pub struct EnumView {
    pub description: Option<Seq<char>>,
    pub bit_size: u32,
    pub variants: Seq<EnumVariantView>,
}

impl View for Enum {
    type V = EnumView;

    open spec fn view(&self) -> EnumView {
        EnumView {
            description: opt_text(self.description),
            bit_size: self.bit_size,
            variants: self.variants@.map_values(|v: EnumVariant| v@),
        }
    }
}

/// A run of bits inside a register.
#[derive(Clone, Debug, PartialEq, Eq)]
pub struct Field {
    pub name: String,
    pub description: Option<String>,
    pub bit_offset: u32,
    pub bit_size: u32,
    pub array: Option<Array>,
    /// The identifier of the enumeration that names this field's values.
    pub enumm: Option<String>,
}

pub struct FieldView {
    pub name: Seq<char>,
    pub description: Option<Seq<char>>,
    pub bit_offset: u32,
    pub bit_size: u32,
    pub array: Option<ArrayView>,
    pub enumm: Option<Seq<char>>,
}

impl View for Field {
    type V = FieldView;

    open spec fn view(&self) -> FieldView {
        FieldView {
            name: self.name@,
            description: opt_text(self.description),
            bit_offset: self.bit_offset,
            bit_size: self.bit_size,
            array: opt_array(self.array),
            enumm: opt_text(self.enumm),
        }
    }
}

/// The bit layout of a register of `bit_size` bits.
#[derive(Clone, Debug, PartialEq, Eq)]
pub struct FieldSet {
    pub description: Option<String>,
    pub bit_size: u32,
    pub fields: Vec<Field>,
}

pub struct FieldSetView {
    pub description: Option<Seq<char>>,
    pub bit_size: u32,
    pub fields: Seq<FieldView>,
}

impl View for FieldSet {
    type V = FieldSetView;

    open spec fn view(&self) -> FieldSetView {
        FieldSetView {
            description: opt_text(self.description),
            bit_size: self.bit_size,
            fields: self.fields@.map_values(|f: Field| f@),
        }
    }
}

/// Which way a register can be accessed.
#[derive(Clone, Copy, Debug, PartialEq, Eq)]
pub enum Access {
    ReadWrite,
    Read,
    Write,
}

/// A register: its width, access and, optionally, the identifier of its
/// field set.
#[derive(Clone, Debug, PartialEq, Eq)]
pub struct Register {
    pub access: Access,
    pub bit_size: u32,
    pub fieldset: Option<String>,
}

/// A nested block, by the identifier of its definition.
#[derive(Clone, Debug, PartialEq, Eq)]
pub struct BlockItemBlock {
    pub block: String,
}

#[derive(Clone, Debug, PartialEq, Eq)]
pub enum BlockItemInner {
    Block(BlockItemBlock),
    Register(Register),
}

pub enum BlockItemInnerView {
    Block { block: Seq<char> },
    Register { access: Access, bit_size: u32, fieldset: Option<Seq<char>> },
}

impl View for BlockItemInner {
    type V = BlockItemInnerView;

    open spec fn view(&self) -> BlockItemInnerView {
        match *self {
            BlockItemInner::Block(b) => BlockItemInnerView::Block { block: b.block@ },
            BlockItemInner::Register(r) => BlockItemInnerView::Register {
                access: r.access,
                bit_size: r.bit_size,
                fieldset: opt_text(r.fieldset),
            },
        }
    }
}

/// One entry of a block: a register or a nested block at a byte offset.
#[derive(Clone, Debug, PartialEq, Eq)]
pub struct BlockItem {
    pub name: String,
    pub description: Option<String>,
    pub array: Option<Array>,
    pub byte_offset: u32,
    pub inner: BlockItemInner,
}

pub struct BlockItemView {
    pub name: Seq<char>,
    pub description: Option<Seq<char>>,
    pub array: Option<ArrayView>,
    pub byte_offset: u32,
    pub inner: BlockItemInnerView,
}

impl View for BlockItem {
    type V = BlockItemView;

    open spec fn view(&self) -> BlockItemView {
        BlockItemView {
            name: self.name@,
            description: opt_text(self.description),
            array: opt_array(self.array),
            byte_offset: self.byte_offset,
            inner: self.inner@,
        }
    }
}

/// A register layout shared by one or more peripherals.
#[derive(Clone, Debug, PartialEq, Eq)]
pub struct Block {
    pub description: Option<String>,
    pub items: Vec<BlockItem>,
}

pub struct BlockView {
    pub description: Option<Seq<char>>,
    pub items: Seq<BlockItemView>,
}

impl View for Block {
    type V = BlockView;

    open spec fn view(&self) -> BlockView {
        BlockView {
            description: opt_text(self.description),
            items: self.items@.map_values(|i: BlockItem| i@),
        }
    }
}

/// An instance of a block at a base address, or a bare address where
/// `block` is `None`.
#[derive(Clone, Debug, PartialEq, Eq)]
pub struct Peripheral {
    pub name: String,
    pub description: Option<String>,
    pub base_address: u64,
    pub block: Option<String>,
}

pub struct PeripheralView {
    pub name: Seq<char>,
    pub description: Option<Seq<char>>,
    pub base_address: u64,
    pub block: Option<Seq<char>>,
}

impl View for Peripheral {
    type V = PeripheralView;

    open spec fn view(&self) -> PeripheralView {
        PeripheralView {
            name: self.name@,
            description: opt_text(self.description),
            base_address: self.base_address,
            block: opt_text(self.block),
        }
    }
}

/// An interrupt line: its name and its index in the vector table.
#[derive(Clone, Debug, PartialEq, Eq)]
pub struct Interrupt {
    pub name: String,
    pub description: Option<String>,
    pub value: u32,
}

pub struct InterruptView {
    pub name: Seq<char>,
    pub description: Option<Seq<char>>,
    pub value: u32,
}

impl View for Interrupt {
    type V = InterruptView;

    open spec fn view(&self) -> InterruptView {
        InterruptView {
            name: self.name@,
            description: opt_text(self.description),
            value: self.value,
        }
    }
}

/// A chip: its peripherals and interrupts.
#[derive(Clone, Debug, PartialEq, Eq)]
pub struct Device {
    pub nvic_priority_bits: Option<u8>,
    pub peripherals: Vec<Peripheral>,
    pub interrupts: Vec<Interrupt>,
}

pub struct DeviceView {
    pub nvic_priority_bits: Option<u8>,
    pub peripherals: Seq<PeripheralView>,
    pub interrupts: Seq<InterruptView>,
}

impl View for Device {
    type V = DeviceView;

    open spec fn view(&self) -> DeviceView {
        DeviceView {
            nvic_priority_bits: self.nvic_priority_bits,
            peripherals: self.peripherals@.map_values(|p: Peripheral| p@),
            interrupts: self.interrupts@.map_values(|i: Interrupt| i@),
        }
    }
}

/// The whole description. Each collection lists its entries as pairs of
/// identifier and entity, in the order in which they were added.
#[derive(Clone, Debug, PartialEq, Eq)]
pub struct IR {
    pub devices: Vec<(String, Device)>,
    pub blocks: Vec<(String, Block)>,
    pub fieldsets: Vec<(String, FieldSet)>,
    pub enums: Vec<(String, Enum)>,
}

pub struct IRView {
    pub devices: Seq<(Seq<char>, DeviceView)>,
    pub blocks: Seq<(Seq<char>, BlockView)>,
    pub fieldsets: Seq<(Seq<char>, FieldSetView)>,
    pub enums: Seq<(Seq<char>, EnumView)>,
}

impl View for IR {
    type V = IRView;

    open spec fn view(&self) -> IRView {
        IRView {
            devices: self.devices@.map_values(|e: (String, Device)| (e.0@, e.1@)),
            blocks: self.blocks@.map_values(|e: (String, Block)| (e.0@, e.1@)),
            fieldsets: self.fieldsets@.map_values(|e: (String, FieldSet)| (e.0@, e.1@)),
            enums: self.enums@.map_values(|e: (String, Enum)| (e.0@, e.1@)),
        }
    }
}

/// The identifiers of a collection, in order.
pub open spec fn ids_of<T>(entries: Seq<(Seq<char>, T)>) -> Seq<Seq<char>> {
    entries.map_values(|e: (Seq<char>, T)| e.0)
}

impl IRView {
    /// No two entries of a collection have the same identifier.
    pub open spec fn unique_ids(self) -> bool {
        &&& ids_of(self.devices).no_duplicates()
        &&& ids_of(self.blocks).no_duplicates()
        &&& ids_of(self.fieldsets).no_duplicates()
        &&& ids_of(self.enums).no_duplicates()
    }

    /// Whether there is an enumeration with the identifier `id`.
    pub open spec fn has_enum(self, id: Seq<char>) -> bool {
        exists|i: int| 0 <= i < self.enums.len() && (#[trigger] self.enums[i]).0 == id
    }

    /// Whether there is a field set with the identifier `id`.
    pub open spec fn has_fieldset(self, id: Seq<char>) -> bool {
        exists|i: int| 0 <= i < self.fieldsets.len() && (#[trigger] self.fieldsets[i]).0 == id
    }

    /// Whether there is a block with the identifier `id`.
    pub open spec fn has_block(self, id: Seq<char>) -> bool {
        exists|i: int| 0 <= i < self.blocks.len() && (#[trigger] self.blocks[i]).0 == id
    }

    /// Every reference names an entry of the collection it points into: the
    /// enumeration of a field, the field set of a register, the block of a
    /// nested block and the block of a peripheral.
    pub open spec fn resolved(self) -> bool {
        &&& forall|i: int, j: int|
            0 <= i < self.fieldsets.len() && 0 <= j < self.fieldsets[i].1.fields.len() ==> match (
            #[trigger] self.fieldsets[i].1.fields[j]).enumm {
                Some(e) => self.has_enum(e),
                None => true,
            }
        &&& forall|i: int, j: int|
            0 <= i < self.blocks.len() && 0 <= j < self.blocks[i].1.items.len() ==> match (
            #[trigger] self.blocks[i].1.items[j]).inner {
                BlockItemInnerView::Register { fieldset: Some(f), .. } => self.has_fieldset(f),
                BlockItemInnerView::Register { fieldset: None, .. } => true,
                BlockItemInnerView::Block { block } => self.has_block(block),
            }
        &&& forall|i: int, j: int|
            0 <= i < self.devices.len() && 0 <= j < self.devices[i].1.peripherals.len() ==> match (
            #[trigger] self.devices[i].1.peripherals[j]).block {
                Some(b) => self.has_block(b),
                None => true,
            }
    }
}

/// Two descriptions list the same identifiers, in the same order, in the
/// collections that references point into.
pub open spec fn same_ids(a: IRView, b: IRView) -> bool {
    &&& a.enums.len() == b.enums.len()
    &&& forall|i: int| 0 <= i < a.enums.len() ==> (#[trigger] a.enums[i]).0 == b.enums[i].0
    &&& a.fieldsets.len() == b.fieldsets.len()
    &&& forall|i: int|
        0 <= i < a.fieldsets.len() ==> (#[trigger] a.fieldsets[i]).0 == b.fieldsets[i].0
    &&& a.blocks.len() == b.blocks.len()
    &&& forall|i: int| 0 <= i < a.blocks.len() ==> (#[trigger] a.blocks[i]).0 == b.blocks[i].0
}

/// Descriptions that list the same identifiers have the same entities.
pub proof fn lemma_same_ids(a: IRView, b: IRView)
    requires
        same_ids(a, b),
    ensures
        forall|id: Seq<char>| a.has_enum(id) ==> b.has_enum(id),
        forall|id: Seq<char>| a.has_fieldset(id) ==> b.has_fieldset(id),
        forall|id: Seq<char>| a.has_block(id) ==> b.has_block(id),
{
    assert forall|id: Seq<char>| a.has_enum(id) implies b.has_enum(id) by {
        let w = choose|w: int| 0 <= w < a.enums.len() && (#[trigger] a.enums[w]).0 == id;
        assert(b.enums[w].0 == id);
    }
    assert forall|id: Seq<char>| a.has_fieldset(id) implies b.has_fieldset(id) by {
        let w = choose|w: int| 0 <= w < a.fieldsets.len() && (#[trigger] a.fieldsets[w]).0 == id;
        assert(b.fieldsets[w].0 == id);
    }
    assert forall|id: Seq<char>| a.has_block(id) implies b.has_block(id) by {
        let w = choose|w: int| 0 <= w < a.blocks.len() && (#[trigger] a.blocks[w]).0 == id;
        assert(b.blocks[w].0 == id);
    }
}

/// Whether no two entries of a collection have the same identifier.
fn listed_once<T>(entries: &Vec<(String, T)>) -> (r: bool)
    ensures
        r == entries@.map_values(|e: (String, T)| e.0@).no_duplicates(),
{
    let ghost ids = entries@.map_values(|e: (String, T)| e.0@);
    let mut seen = IdSet::new();
    let mut i: usize = 0;
    while i < entries.len()
        invariant
            i <= entries.len(),
            ids == entries@.map_values(|e: (String, T)| e.0@),
            seen.wf(),
            seen.seq() == ids.take(i as int),
        decreases entries.len() - i,
    {
        let added = seen.insert(entries[i].0.clone());
        if !added {
            proof {
                let w = choose|w: int| 0 <= w < ids.take(i as int).len() && ids.take(i as int)[w]
                    == ids[i as int];
                assert(ids[w] == ids[i as int]);
            }
            return false;
        }
        assert(ids.take(i as int).push(ids[i as int]) =~= ids.take(i + 1));
        i += 1;
    }
    proof {
        seen.lemma_listed_once();
        assert(ids.take(i as int) =~= ids);
    }
    true
}

impl IR {
    /// Whether no two entries of a collection have the same identifier.
    pub fn has_unique_ids(&self) -> (r: bool)
        ensures
            r == self@.unique_ids(),
    {
        assert(ids_of(self@.devices) =~= self.devices@.map_values(|e: (String, Device)| e.0@));
        assert(ids_of(self@.blocks) =~= self.blocks@.map_values(|e: (String, Block)| e.0@));
        assert(ids_of(self@.fieldsets) =~= self.fieldsets@.map_values(
            |e: (String, FieldSet)| e.0@,
        ));
        assert(ids_of(self@.enums) =~= self.enums@.map_values(|e: (String, Enum)| e.0@));
        listed_once(&self.devices) && listed_once(&self.blocks) && listed_once(&self.fieldsets)
            && listed_once(&self.enums)
    }

    /// An empty description.
    pub fn new() -> (ir: IR)
        ensures
            ir@.devices.len() == 0,
            ir@.blocks.len() == 0,
            ir@.fieldsets.len() == 0,
            ir@.enums.len() == 0,
    {
        IR { devices: Vec::new(), blocks: Vec::new(), fieldsets: Vec::new(), enums: Vec::new() }
    }
}

} // verus!
