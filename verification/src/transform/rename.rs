//! Repointing references after entities have been merged: every reference
//! to one of a set of identifiers is made a reference to a chosen one.
use vstd::prelude::*;
use crate::idset::IdSet;
use crate::ir::{
    ids_of, lemma_same_ids, opt_text, Block, BlockItem, BlockItemInner, BlockItemInnerView, BlockItemView, BlockView,
    Device, DeviceView, FieldSet, FieldSetView, FieldView, IRView, PeripheralView, IR,
};

verus! {

/// `id`, or `to` in its place where `id` is one of `from`.
pub open spec fn renamed(id: Seq<char>, from: Set<Seq<char>>, to: Seq<char>) -> Seq<char> {
    if from.contains(id) {
        to
    } else {
        id
    }
}

/// An optional reference with `renamed` applied to it.
pub open spec fn renamed_ref(id: Option<Seq<char>>, from: Set<Seq<char>>, to: Seq<char>) -> Option<
    Seq<char>,
> {
    match id {
        Some(x) => Some(renamed(x, from, to)),
        None => None,
    }
}

/// A field with its enumeration renamed.
pub open spec fn field_with_enum_renamed(
    f: FieldView,
    from: Set<Seq<char>>,
    to: Seq<char>,
) -> FieldView {
    FieldView { enumm: renamed_ref(f.enumm, from, to), ..f }
}

/// A field set with the enumeration of every field renamed.
pub open spec fn fieldset_with_enums_renamed(
    s: FieldSetView,
    from: Set<Seq<char>>,
    to: Seq<char>,
) -> FieldSetView {
    FieldSetView {
        fields: s.fields.map_values(|f: FieldView| field_with_enum_renamed(f, from, to)),
        ..s
    }
}

/// A description with the enumeration of every field of every field set
/// renamed, and nothing else changed.
pub open spec fn with_enums_renamed(ir: IRView, from: Set<Seq<char>>, to: Seq<char>) -> IRView {
    IRView {
        fieldsets: ir.fieldsets.map_values(
            |e: (Seq<char>, FieldSetView)| (e.0, fieldset_with_enums_renamed(e.1, from, to)),
        ),
        ..ir
    }
}

/// A block item with its field set renamed, where it is a register.
pub open spec fn item_with_fieldset_renamed(
    i: BlockItemView,
    from: Set<Seq<char>>,
    to: Seq<char>,
) -> BlockItemView {
    match i.inner {
        BlockItemInnerView::Register { access, bit_size, fieldset } => BlockItemView {
            inner: BlockItemInnerView::Register {
                access,
                bit_size,
                fieldset: renamed_ref(fieldset, from, to),
            },
            ..i
        },
        BlockItemInnerView::Block { .. } => i,
    }
}

/// A block with the field set of every register renamed.
pub open spec fn block_with_fieldsets_renamed(
    b: BlockView,
    from: Set<Seq<char>>,
    to: Seq<char>,
) -> BlockView {
    BlockView {
        items: b.items.map_values(|i: BlockItemView| item_with_fieldset_renamed(i, from, to)),
        ..b
    }
}

/// A description with the field set of every register of every block
/// renamed, and nothing else changed.
pub open spec fn with_fieldsets_renamed(ir: IRView, from: Set<Seq<char>>, to: Seq<char>) -> IRView {
    IRView {
        blocks: ir.blocks.map_values(
            |e: (Seq<char>, BlockView)| (e.0, block_with_fieldsets_renamed(e.1, from, to)),
        ),
        ..ir
    }
}

/// A block item with its block renamed, where it is a nested block.
pub open spec fn item_with_block_renamed(
    i: BlockItemView,
    from: Set<Seq<char>>,
    to: Seq<char>,
) -> BlockItemView {
    match i.inner {
        BlockItemInnerView::Block { block } => BlockItemView {
            inner: BlockItemInnerView::Block { block: renamed(block, from, to) },
            ..i
        },
        BlockItemInnerView::Register { .. } => i,
    }
}

/// A block with the block of every nested block renamed.
pub open spec fn block_with_blocks_renamed(
    b: BlockView,
    from: Set<Seq<char>>,
    to: Seq<char>,
) -> BlockView {
    BlockView {
        items: b.items.map_values(|i: BlockItemView| item_with_block_renamed(i, from, to)),
        ..b
    }
}

/// A peripheral with its block renamed.
pub open spec fn peripheral_with_block_renamed(
    p: PeripheralView,
    from: Set<Seq<char>>,
    to: Seq<char>,
) -> PeripheralView {
    PeripheralView { block: renamed_ref(p.block, from, to), ..p }
}

/// A device with the block of every peripheral renamed.
pub open spec fn device_with_blocks_renamed(
    d: DeviceView,
    from: Set<Seq<char>>,
    to: Seq<char>,
) -> DeviceView {
    DeviceView {
        peripherals: d.peripherals.map_values(
            |p: PeripheralView| peripheral_with_block_renamed(p, from, to),
        ),
        ..d
    }
}

/// A description with the block of every peripheral of every device and of
/// every nested block of every block renamed, and nothing else changed.
pub open spec fn with_blocks_renamed(ir: IRView, from: Set<Seq<char>>, to: Seq<char>) -> IRView {
    IRView {
        devices: ir.devices.map_values(
            |e: (Seq<char>, DeviceView)| (e.0, device_with_blocks_renamed(e.1, from, to)),
        ),
        blocks: ir.blocks.map_values(
            |e: (Seq<char>, BlockView)| (e.0, block_with_blocks_renamed(e.1, from, to)),
        ),
        ..ir
    }
}

/// Renames an optional reference in place.
fn rename_ref(id: &mut Option<String>, from: &IdSet, to: &String)
    requires
        from.wf(),
    ensures
        opt_text(*final(id)) == renamed_ref(opt_text(*old(id)), from@, to@),
{
    let hit: bool = match id {
        Some(x) => from.contains(x.as_str()),
        None => false,
    };
    if hit {
        *id = Some(to.clone());
    }
}

/// Renames the enumeration of every field of a field set.
fn rename_enums_in_fieldset(fs: &mut FieldSet, from: &IdSet, to: &String)
    requires
        from.wf(),
    ensures
        final(fs)@ == fieldset_with_enums_renamed(old(fs)@, from@, to@),
{
    let n: usize = fs.fields.len();
    let mut j: usize = 0;
    while j < n
        invariant
            j <= n,
            from.wf(),
            fs.fields.len() == n,
            old(fs).fields.len() == n,
            fs.description == old(fs).description,
            fs.bit_size == old(fs).bit_size,
            forall|q: int|
                0 <= q < j ==> (#[trigger] fs.fields[q])@ == field_with_enum_renamed(
                    old(fs).fields[q]@,
                    from@,
                    to@,
                ),
            forall|q: int| j <= q < n ==> fs.fields[q] == old(fs).fields[q],
        decreases n - j,
    {
        rename_ref(&mut fs.fields[j].enumm, from, to);
        j += 1;
    }
    assert(fs@.fields =~= fieldset_with_enums_renamed(old(fs)@, from@, to@).fields);
}

/// Makes every field that refers to an enumeration of `from` refer to `to`.
/// Nothing is removed, and `to` need not exist.
pub fn replace_enum_ids(ir: &mut IR, from: &IdSet, to: String)
    requires
        from.wf(),
    ensures
        final(ir)@ == with_enums_renamed(old(ir)@, from@, to@),
{
    let n: usize = ir.fieldsets.len();
    let mut i: usize = 0;
    while i < n
        invariant
            i <= n,
            from.wf(),
            ir.fieldsets.len() == n,
            old(ir).fieldsets.len() == n,
            ir.devices == old(ir).devices,
            ir.blocks == old(ir).blocks,
            ir.enums == old(ir).enums,
            forall|k: int|
                0 <= k < i ==> (#[trigger] ir.fieldsets[k]).0 == old(ir).fieldsets[k].0
                    && ir.fieldsets[k].1@ == fieldset_with_enums_renamed(
                    old(ir).fieldsets[k].1@,
                    from@,
                    to@,
                ),
            forall|k: int| i <= k < n ==> ir.fieldsets[k] == old(ir).fieldsets[k],
        decreases n - i,
    {
        rename_enums_in_fieldset(&mut ir.fieldsets[i].1, from, &to);
        i += 1;
    }
    assert(ir@.fieldsets =~= with_enums_renamed(old(ir)@, from@, to@).fieldsets);
}

/// Renames the field set of a block item, where it is a register.
fn rename_fieldset_in_item(item: &mut BlockItem, from: &IdSet, to: &String)
    requires
        from.wf(),
    ensures
        final(item)@ == item_with_fieldset_renamed(old(item)@, from@, to@),
{
    match &mut item.inner {
        BlockItemInner::Register(r) => {
            rename_ref(&mut r.fieldset, from, to);
        },
        BlockItemInner::Block(_) => {},
    }
}

/// Renames the field set of every register of a block.
fn rename_fieldsets_in_block(b: &mut Block, from: &IdSet, to: &String)
    requires
        from.wf(),
    ensures
        final(b)@ == block_with_fieldsets_renamed(old(b)@, from@, to@),
{
    let n: usize = b.items.len();
    let mut j: usize = 0;
    while j < n
        invariant
            j <= n,
            from.wf(),
            b.items.len() == n,
            old(b).items.len() == n,
            b.description == old(b).description,
            forall|q: int|
                0 <= q < j ==> (#[trigger] b.items[q])@ == item_with_fieldset_renamed(
                    old(b).items[q]@,
                    from@,
                    to@,
                ),
            forall|q: int| j <= q < n ==> b.items[q] == old(b).items[q],
        decreases n - j,
    {
        rename_fieldset_in_item(&mut b.items[j], from, to);
        j += 1;
    }
    assert(b@.items =~= block_with_fieldsets_renamed(old(b)@, from@, to@).items);
}

/// Makes every register that refers to a field set of `from` refer to `to`.
/// Nothing is removed, and `to` need not exist.
pub fn replace_fieldset_ids(ir: &mut IR, from: &IdSet, to: String)
    requires
        from.wf(),
    ensures
        final(ir)@ == with_fieldsets_renamed(old(ir)@, from@, to@),
{
    let n: usize = ir.blocks.len();
    let mut i: usize = 0;
    while i < n
        invariant
            i <= n,
            from.wf(),
            ir.blocks.len() == n,
            old(ir).blocks.len() == n,
            ir.devices == old(ir).devices,
            ir.fieldsets == old(ir).fieldsets,
            ir.enums == old(ir).enums,
            forall|k: int|
                0 <= k < i ==> (#[trigger] ir.blocks[k]).0 == old(ir).blocks[k].0
                    && ir.blocks[k].1@ == block_with_fieldsets_renamed(
                    old(ir).blocks[k].1@,
                    from@,
                    to@,
                ),
            forall|k: int| i <= k < n ==> ir.blocks[k] == old(ir).blocks[k],
        decreases n - i,
    {
        rename_fieldsets_in_block(&mut ir.blocks[i].1, from, &to);
        i += 1;
    }
    assert(ir@.blocks =~= with_fieldsets_renamed(old(ir)@, from@, to@).blocks);
}

/// Renames the block of a block item, where it is a nested block.
fn rename_block_in_item(item: &mut BlockItem, from: &IdSet, to: &String)
    requires
        from.wf(),
    ensures
        final(item)@ == item_with_block_renamed(old(item)@, from@, to@),
{
    match &mut item.inner {
        BlockItemInner::Block(bi) => {
            if from.contains(bi.block.as_str()) {
                bi.block = to.clone();
            }
        },
        BlockItemInner::Register(_) => {},
    }
}

/// Renames the block of every nested block of a block.
fn rename_blocks_in_block(b: &mut Block, from: &IdSet, to: &String)
    requires
        from.wf(),
    ensures
        final(b)@ == block_with_blocks_renamed(old(b)@, from@, to@),
{
    let n: usize = b.items.len();
    let mut j: usize = 0;
    while j < n
        invariant
            j <= n,
            from.wf(),
            b.items.len() == n,
            old(b).items.len() == n,
            b.description == old(b).description,
            forall|q: int|
                0 <= q < j ==> (#[trigger] b.items[q])@ == item_with_block_renamed(
                    old(b).items[q]@,
                    from@,
                    to@,
                ),
            forall|q: int| j <= q < n ==> b.items[q] == old(b).items[q],
        decreases n - j,
    {
        rename_block_in_item(&mut b.items[j], from, to);
        j += 1;
    }
    assert(b@.items =~= block_with_blocks_renamed(old(b)@, from@, to@).items);
}

/// Renames the block of every peripheral of a device.
fn rename_blocks_in_device(d: &mut Device, from: &IdSet, to: &String)
    requires
        from.wf(),
    ensures
        final(d)@ == device_with_blocks_renamed(old(d)@, from@, to@),
{
    let n: usize = d.peripherals.len();
    let mut j: usize = 0;
    while j < n
        invariant
            j <= n,
            from.wf(),
            d.peripherals.len() == n,
            old(d).peripherals.len() == n,
            d.nvic_priority_bits == old(d).nvic_priority_bits,
            d.interrupts == old(d).interrupts,
            forall|q: int|
                0 <= q < j ==> (#[trigger] d.peripherals[q])@ == peripheral_with_block_renamed(
                    old(d).peripherals[q]@,
                    from@,
                    to@,
                ),
            forall|q: int| j <= q < n ==> d.peripherals[q] == old(d).peripherals[q],
        decreases n - j,
    {
        rename_ref(&mut d.peripherals[j].block, from, to);
        j += 1;
    }
    assert(d@.peripherals =~= device_with_blocks_renamed(old(d)@, from@, to@).peripherals);
}

/// Makes every peripheral and every nested block that refers to a block of
/// `from` refer to `to`. Nothing is removed, and `to` need not exist.
pub fn replace_block_ids(ir: &mut IR, from: &IdSet, to: String)
    requires
        from.wf(),
    ensures
        final(ir)@ == with_blocks_renamed(old(ir)@, from@, to@),
{
    let n: usize = ir.devices.len();
    let mut i: usize = 0;
    while i < n
        invariant
            i <= n,
            from.wf(),
            ir.devices.len() == n,
            old(ir).devices.len() == n,
            ir.blocks == old(ir).blocks,
            ir.fieldsets == old(ir).fieldsets,
            ir.enums == old(ir).enums,
            forall|k: int|
                0 <= k < i ==> (#[trigger] ir.devices[k]).0 == old(ir).devices[k].0
                    && ir.devices[k].1@ == device_with_blocks_renamed(
                    old(ir).devices[k].1@,
                    from@,
                    to@,
                ),
            forall|k: int| i <= k < n ==> ir.devices[k] == old(ir).devices[k],
        decreases n - i,
    {
        rename_blocks_in_device(&mut ir.devices[i].1, from, &to);
        i += 1;
    }
    let ghost devices = ir@.devices;
    assert(devices =~= with_blocks_renamed(old(ir)@, from@, to@).devices);
    let m: usize = ir.blocks.len();
    let mut i: usize = 0;
    while i < m
        invariant
            i <= m,
            from.wf(),
            ir.blocks.len() == m,
            old(ir).blocks.len() == m,
            ir@.devices == devices,
            ir.fieldsets == old(ir).fieldsets,
            ir.enums == old(ir).enums,
            forall|k: int|
                0 <= k < i ==> (#[trigger] ir.blocks[k]).0 == old(ir).blocks[k].0
                    && ir.blocks[k].1@ == block_with_blocks_renamed(
                    old(ir).blocks[k].1@,
                    from@,
                    to@,
                ),
            forall|k: int| i <= k < m ==> ir.blocks[k] == old(ir).blocks[k],
        decreases m - i,
    {
        rename_blocks_in_block(&mut ir.blocks[i].1, from, &to);
        i += 1;
    }
    assert(ir@.blocks =~= with_blocks_renamed(old(ir)@, from@, to@).blocks);
}

/// Renaming the enumerations a second time, with the same `from` and `to`,
/// changes nothing.
pub proof fn lemma_replace_enum_ids_twice(ir: IRView, from: Set<Seq<char>>, to: Seq<char>)
    ensures
        with_enums_renamed(with_enums_renamed(ir, from, to), from, to) == with_enums_renamed(
            ir,
            from,
            to,
        ),
{
    let once = with_enums_renamed(ir, from, to);
    let twice = with_enums_renamed(once, from, to);
    assert forall|i: int| 0 <= i < once.fieldsets.len() implies twice.fieldsets[i]
        == once.fieldsets[i] by {
        let a = once.fieldsets[i].1;
        let b = twice.fieldsets[i].1;
        assert forall|j: int| 0 <= j < a.fields.len() implies b.fields[j] == a.fields[j] by {
            let f = ir.fieldsets[i].1.fields[j];
            assert(a.fields[j] == field_with_enum_renamed(f, from, to));
            assert(b.fields[j] == field_with_enum_renamed(a.fields[j], from, to));
        }
        assert(b.fields =~= a.fields);
    }
    assert(twice.fieldsets =~= once.fieldsets);
}

/// After the enumerations have been renamed, a field refers to `to` where it
/// referred to an enumeration of `from`, and to what it referred to before
/// where it did not. Where `to` is not itself in `from`, no field refers to
/// an enumeration of `from` any more.
pub proof fn lemma_replace_enum_ids_refs(
    ir: IRView,
    from: Set<Seq<char>>,
    to: Seq<char>,
    i: int,
    j: int,
)
    requires
        0 <= i < ir.fieldsets.len(),
        0 <= j < ir.fieldsets[i].1.fields.len(),
    ensures
        with_enums_renamed(ir, from, to).fieldsets.len() == ir.fieldsets.len(),
        with_enums_renamed(ir, from, to).fieldsets[i].1.fields.len()
            == ir.fieldsets[i].1.fields.len(),
        match ir.fieldsets[i].1.fields[j].enumm {
            Some(e) => with_enums_renamed(ir, from, to).fieldsets[i].1.fields[j].enumm == Some(
                if from.contains(e) {
                    to
                } else {
                    e
                },
            ),
            None => with_enums_renamed(ir, from, to).fieldsets[i].1.fields[j].enumm is None,
        },
        !from.contains(to) ==> match with_enums_renamed(ir, from, to).fieldsets[i].1.fields[j].enumm {
            Some(e) => !from.contains(e),
            None => true,
        },
{
}

/// Renaming the field sets a second time, with the same `from` and `to`,
/// changes nothing.
pub proof fn lemma_replace_fieldset_ids_twice(ir: IRView, from: Set<Seq<char>>, to: Seq<char>)
    ensures
        with_fieldsets_renamed(with_fieldsets_renamed(ir, from, to), from, to)
            == with_fieldsets_renamed(ir, from, to),
{
    let once = with_fieldsets_renamed(ir, from, to);
    let twice = with_fieldsets_renamed(once, from, to);
    assert forall|i: int| 0 <= i < once.blocks.len() implies twice.blocks[i] == once.blocks[i] by {
        let a = once.blocks[i].1;
        let b = twice.blocks[i].1;
        assert forall|j: int| 0 <= j < a.items.len() implies b.items[j] == a.items[j] by {
            let item = ir.blocks[i].1.items[j];
            assert(a.items[j] == item_with_fieldset_renamed(item, from, to));
            assert(b.items[j] == item_with_fieldset_renamed(a.items[j], from, to));
        }
        assert(b.items =~= a.items);
    }
    assert(twice.blocks =~= once.blocks);
}

/// Renaming the blocks a second time, with the same `from` and `to`,
/// changes nothing.
pub proof fn lemma_replace_block_ids_twice(ir: IRView, from: Set<Seq<char>>, to: Seq<char>)
    ensures
        with_blocks_renamed(with_blocks_renamed(ir, from, to), from, to) == with_blocks_renamed(
            ir,
            from,
            to,
        ),
{
    let once = with_blocks_renamed(ir, from, to);
    let twice = with_blocks_renamed(once, from, to);
    assert forall|i: int| 0 <= i < once.blocks.len() implies twice.blocks[i] == once.blocks[i] by {
        let a = once.blocks[i].1;
        let b = twice.blocks[i].1;
        assert forall|j: int| 0 <= j < a.items.len() implies b.items[j] == a.items[j] by {
            let item = ir.blocks[i].1.items[j];
            assert(a.items[j] == item_with_block_renamed(item, from, to));
            assert(b.items[j] == item_with_block_renamed(a.items[j], from, to));
        }
        assert(b.items =~= a.items);
    }
    assert(twice.blocks =~= once.blocks);
    assert forall|i: int| 0 <= i < once.devices.len() implies twice.devices[i]
        == once.devices[i] by {
        let a = once.devices[i].1;
        let b = twice.devices[i].1;
        assert forall|j: int| 0 <= j < a.peripherals.len() implies b.peripherals[j]
            == a.peripherals[j] by {
            let p = ir.devices[i].1.peripherals[j];
            assert(a.peripherals[j] == peripheral_with_block_renamed(p, from, to));
            assert(b.peripherals[j] == peripheral_with_block_renamed(a.peripherals[j], from, to));
        }
        assert(b.peripherals =~= a.peripherals);
    }
    assert(twice.devices =~= once.devices);
}

/// Renaming the enumerations to one that exists keeps every reference
/// resolved.
pub proof fn lemma_replace_enum_ids_keeps_resolved(ir: IRView, from: Set<Seq<char>>, to: Seq<char>)
    requires
        ir.resolved(),
        ir.has_enum(to),
    ensures
        with_enums_renamed(ir, from, to).resolved(),
{
    let now = with_enums_renamed(ir, from, to);
    lemma_same_ids(ir, now);
    assert forall|i: int, j: int|
        0 <= i < now.fieldsets.len() && 0 <= j < now.fieldsets[i].1.fields.len() implies match (
    #[trigger] now.fieldsets[i].1.fields[j]).enumm {
        Some(e) => now.has_enum(e),
        None => true,
    } by {
        let before = ir.fieldsets[i].1.fields[j];
        assert(now.fieldsets[i].1 == fieldset_with_enums_renamed(ir.fieldsets[i].1, from, to));
        assert(now.fieldsets[i].1.fields[j] == field_with_enum_renamed(before, from, to));
        match before.enumm {
            Some(e) => {
                assert(ir.has_enum(e));
            },
            None => {},
        }
    }
    assert forall|i: int, j: int|
        0 <= i < now.blocks.len() && 0 <= j < now.blocks[i].1.items.len() implies match (
    #[trigger] now.blocks[i].1.items[j]).inner {
        BlockItemInnerView::Register { fieldset: Some(f), .. } => now.has_fieldset(f),
        BlockItemInnerView::Register { fieldset: None, .. } => true,
        BlockItemInnerView::Block { block } => now.has_block(block),
    } by {
        let before = ir.blocks[i].1.items[j];
        assert(now.blocks[i].1.items[j] == before);
        match before.inner {
            BlockItemInnerView::Register { fieldset: Some(f), .. } => {
                assert(ir.has_fieldset(f));
            },
            BlockItemInnerView::Register { fieldset: None, .. } => {},
            BlockItemInnerView::Block { block } => {
                assert(ir.has_block(block));
            },
        }
    }
    assert forall|i: int, j: int|
        0 <= i < now.devices.len() && 0 <= j < now.devices[i].1.peripherals.len() implies match (
    #[trigger] now.devices[i].1.peripherals[j]).block {
        Some(b) => now.has_block(b),
        None => true,
    } by {
        let before = ir.devices[i].1.peripherals[j];
        assert(now.devices[i].1.peripherals[j] == before);
        match before.block {
            Some(b) => {
                assert(ir.has_block(b));
            },
            None => {},
        }
    }
}

/// Renaming the field sets to one that exists keeps every reference
/// resolved.
pub proof fn lemma_replace_fieldset_ids_keeps_resolved(
    ir: IRView,
    from: Set<Seq<char>>,
    to: Seq<char>,
)
    requires
        ir.resolved(),
        ir.has_fieldset(to),
    ensures
        with_fieldsets_renamed(ir, from, to).resolved(),
{
    let now = with_fieldsets_renamed(ir, from, to);
    lemma_same_ids(ir, now);
    assert forall|i: int, j: int|
        0 <= i < now.fieldsets.len() && 0 <= j < now.fieldsets[i].1.fields.len() implies match (
    #[trigger] now.fieldsets[i].1.fields[j]).enumm {
        Some(e) => now.has_enum(e),
        None => true,
    } by {
        let before = ir.fieldsets[i].1.fields[j];
        assert(now.fieldsets[i].1.fields[j] == before);
        match before.enumm {
            Some(e) => {
                assert(ir.has_enum(e));
            },
            None => {},
        }
    }
    assert forall|i: int, j: int|
        0 <= i < now.blocks.len() && 0 <= j < now.blocks[i].1.items.len() implies match (
    #[trigger] now.blocks[i].1.items[j]).inner {
        BlockItemInnerView::Register { fieldset: Some(f), .. } => now.has_fieldset(f),
        BlockItemInnerView::Register { fieldset: None, .. } => true,
        BlockItemInnerView::Block { block } => now.has_block(block),
    } by {
        let before = ir.blocks[i].1.items[j];
        assert(now.blocks[i].1 == block_with_fieldsets_renamed(ir.blocks[i].1, from, to));
        assert(now.blocks[i].1.items[j] == item_with_fieldset_renamed(before, from, to));
        match before.inner {
            BlockItemInnerView::Register { fieldset: Some(f), .. } => {
                assert(ir.has_fieldset(f));
            },
            BlockItemInnerView::Register { fieldset: None, .. } => {},
            BlockItemInnerView::Block { block } => {
                assert(ir.has_block(block));
            },
        }
    }
    assert forall|i: int, j: int|
        0 <= i < now.devices.len() && 0 <= j < now.devices[i].1.peripherals.len() implies match (
    #[trigger] now.devices[i].1.peripherals[j]).block {
        Some(b) => now.has_block(b),
        None => true,
    } by {
        let before = ir.devices[i].1.peripherals[j];
        assert(now.devices[i].1.peripherals[j] == before);
        match before.block {
            Some(b) => {
                assert(ir.has_block(b));
            },
            None => {},
        }
    }
}

/// Renaming the blocks to one that exists keeps every reference resolved.
pub proof fn lemma_replace_block_ids_keeps_resolved(ir: IRView, from: Set<Seq<char>>, to: Seq<char>)
    requires
        ir.resolved(),
        ir.has_block(to),
    ensures
        with_blocks_renamed(ir, from, to).resolved(),
{
    let now = with_blocks_renamed(ir, from, to);
    lemma_same_ids(ir, now);
    assert forall|i: int, j: int|
        0 <= i < now.fieldsets.len() && 0 <= j < now.fieldsets[i].1.fields.len() implies match (
    #[trigger] now.fieldsets[i].1.fields[j]).enumm {
        Some(e) => now.has_enum(e),
        None => true,
    } by {
        let before = ir.fieldsets[i].1.fields[j];
        assert(now.fieldsets[i].1.fields[j] == before);
        match before.enumm {
            Some(e) => {
                assert(ir.has_enum(e));
            },
            None => {},
        }
    }
    assert forall|i: int, j: int|
        0 <= i < now.blocks.len() && 0 <= j < now.blocks[i].1.items.len() implies match (
    #[trigger] now.blocks[i].1.items[j]).inner {
        BlockItemInnerView::Register { fieldset: Some(f), .. } => now.has_fieldset(f),
        BlockItemInnerView::Register { fieldset: None, .. } => true,
        BlockItemInnerView::Block { block } => now.has_block(block),
    } by {
        let before = ir.blocks[i].1.items[j];
        assert(now.blocks[i].1 == block_with_blocks_renamed(ir.blocks[i].1, from, to));
        assert(now.blocks[i].1.items[j] == item_with_block_renamed(before, from, to));
        match before.inner {
            BlockItemInnerView::Register { fieldset: Some(f), .. } => {
                assert(ir.has_fieldset(f));
            },
            BlockItemInnerView::Register { fieldset: None, .. } => {},
            BlockItemInnerView::Block { block } => {
                assert(ir.has_block(block));
            },
        }
    }
    assert forall|i: int, j: int|
        0 <= i < now.devices.len() && 0 <= j < now.devices[i].1.peripherals.len() implies match (
    #[trigger] now.devices[i].1.peripherals[j]).block {
        Some(b) => now.has_block(b),
        None => true,
    } by {
        let before = ir.devices[i].1.peripherals[j];
        assert(now.devices[i].1 == device_with_blocks_renamed(ir.devices[i].1, from, to));
        assert(now.devices[i].1.peripherals[j] == peripheral_with_block_renamed(before, from, to));
        match before.block {
            Some(b) => {
                assert(ir.has_block(b));
            },
            None => {},
        }
    }
}

/// Renaming references changes no identifier of an entry: where the
/// identifiers were unique, they still are.
pub proof fn lemma_renaming_keeps_unique_ids(ir: IRView, from: Set<Seq<char>>, to: Seq<char>)
    requires
        ir.unique_ids(),
    ensures
        with_enums_renamed(ir, from, to).unique_ids(),
        with_fieldsets_renamed(ir, from, to).unique_ids(),
        with_blocks_renamed(ir, from, to).unique_ids(),
{
    assert(ids_of(with_enums_renamed(ir, from, to).fieldsets) =~= ids_of(ir.fieldsets));
    assert(ids_of(with_fieldsets_renamed(ir, from, to).blocks) =~= ids_of(ir.blocks));
    assert(ids_of(with_blocks_renamed(ir, from, to).blocks) =~= ids_of(ir.blocks));
    assert(ids_of(with_blocks_renamed(ir, from, to).devices) =~= ids_of(ir.devices));
}

} // verus!
