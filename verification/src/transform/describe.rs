//! Carrying the documentation of enumeration variants over to the fields
//! that use the enumeration.
use vstd::prelude::*;
use vstd::hash_map::StringHashMap;
use vstd::string::*;
use crate::ir::{
    ids_of, lemma_same_ids, BlockItemInnerView, Enum, EnumVariantView, EnumView, Field, FieldSet,
    FieldSetView, FieldView, IRView, IR,
};
use crate::pattern::{anchored, is_match, make_regex, pattern_compiles, pattern_matches, Pattern, PatternError};
use crate::text::{decimal, push_decimal};

verus! {

/// Descriptions by identifier.
pub type DescMap = StringHashMap<String>;

/// A description, or the empty text where there is none.
pub open spec fn desc_or_empty(d: Option<Seq<char>>) -> Seq<char> {
    match d {
        Some(t) => t,
        None => Seq::empty(),
    }
}

/// The line that documents one variant: its value in decimal, a colon and a
/// space, its description if it has one, and a line feed.
pub open spec fn variant_line(v: EnumVariantView) -> Seq<char> {
    decimal(v.value as nat) + seq![':', ' '] + desc_or_empty(v.description) + seq!['\n']
}

/// The lines of all variants, in order.
pub open spec fn variant_lines(variants: Seq<EnumVariantView>) -> Seq<char>
    decreases variants.len(),
{
    if variants.len() == 0 {
        Seq::empty()
    } else {
        variant_lines(variants.drop_last()) + variant_line(variants.last())
    }
}

/// Whether an enumeration is asked for: the pattern matches its identifier
/// and, where a bit size is given, it has that bit size.
pub open spec fn wanted(
    id: Seq<char>,
    e: EnumView,
    pattern: Seq<char>,
    bit_size: Option<u32>,
) -> bool {
    &&& bit_size matches Some(s) ==> s == e.bit_size
    &&& pattern_matches(pattern, id)
}

/// The variant lines of the enumerations asked for, by identifier. Where
/// two of them share an identifier, the later one counts.
pub open spec fn variant_descs(
    enums: Seq<(Seq<char>, EnumView)>,
    pattern: Seq<char>,
    bit_size: Option<u32>,
) -> Map<Seq<char>, Seq<char>>
    decreases enums.len(),
{
    if enums.len() == 0 {
        Map::empty()
    } else {
        let rest = variant_descs(enums.drop_last(), pattern, bit_size);
        let (id, e) = enums.last();
        if wanted(id, e, pattern, bit_size) {
            rest.insert(id, variant_lines(e.variants))
        } else {
            rest
        }
    }
}

/// The texts of a map of descriptions.
pub open spec fn desc_texts(descs: Map<Seq<char>, String>) -> Map<Seq<char>, Seq<char>> {
    descs.map_values(|s: String| s@)
}

/// `variant_descs` has an entry for exactly the identifiers of the
/// enumerations asked for.
pub proof fn lemma_variant_descs_keys(
    enums: Seq<(Seq<char>, EnumView)>,
    pattern: Seq<char>,
    bit_size: Option<u32>,
)
    ensures
        forall|k: Seq<char>|
            variant_descs(enums, pattern, bit_size).contains_key(k) <==> exists|i: int|
                0 <= i < enums.len() && (#[trigger] enums[i]).0 == k && wanted(
                    k,
                    enums[i].1,
                    pattern,
                    bit_size,
                ),
    decreases enums.len(),
{
    if enums.len() > 0 {
        let most = enums.drop_last();
        let last = enums.last();
        let rest = variant_descs(most, pattern, bit_size);
        let all = variant_descs(enums, pattern, bit_size);
        lemma_variant_descs_keys(most, pattern, bit_size);
        assert forall|k: Seq<char>| all.contains_key(k) implies exists|i: int|
            0 <= i < enums.len() && (#[trigger] enums[i]).0 == k && wanted(
                k,
                enums[i].1,
                pattern,
                bit_size,
            ) by {
            if rest.contains_key(k) {
                let i = choose|i: int|
                    0 <= i < most.len() && (#[trigger] most[i]).0 == k && wanted(
                        k,
                        most[i].1,
                        pattern,
                        bit_size,
                    );
                assert(enums[i] == most[i]);
            } else {
                assert(wanted(last.0, last.1, pattern, bit_size));
                assert(k == last.0);
                assert(enums[enums.len() - 1] == last);
            }
        }
        assert forall|k: Seq<char>|
            (exists|i: int|
                0 <= i < enums.len() && (#[trigger] enums[i]).0 == k && wanted(
                    k,
                    enums[i].1,
                    pattern,
                    bit_size,
                )) implies all.contains_key(k) by {
            let i = choose|i: int|
                0 <= i < enums.len() && (#[trigger] enums[i]).0 == k && wanted(
                    k,
                    enums[i].1,
                    pattern,
                    bit_size,
                );
            if i < most.len() {
                assert(most[i] == enums[i]);
                assert(rest.contains_key(k));
            } else {
                assert(enums[i] == last);
            }
        }
    }
}

/// The entry of an enumeration asked for holds its variant lines, unless a
/// later enumeration asked for has the same identifier.
pub proof fn lemma_variant_descs_entry(
    enums: Seq<(Seq<char>, EnumView)>,
    pattern: Seq<char>,
    bit_size: Option<u32>,
    i: int,
)
    requires
        0 <= i < enums.len(),
        wanted(enums[i].0, enums[i].1, pattern, bit_size),
        forall|j: int|
            i < j < enums.len() && wanted(enums[j].0, enums[j].1, pattern, bit_size)
                ==> enums[j].0 != enums[i].0,
    ensures
        variant_descs(enums, pattern, bit_size).contains_key(enums[i].0),
        variant_descs(enums, pattern, bit_size)[enums[i].0] == variant_lines(enums[i].1.variants),
    decreases enums.len(),
{
    if i < enums.len() - 1 {
        let most = enums.drop_last();
        assert(most[i] == enums[i]);
        assert forall|j: int|
            i < j < most.len() && wanted(most[j].0, most[j].1, pattern, bit_size) implies most[j].0
            != most[i].0 by {
            assert(most[j] == enums[j]);
        }
        lemma_variant_descs_entry(most, pattern, bit_size, i);
    }
}

/// The variant lines of an enumeration.
pub fn describe_variants(e: &Enum) -> (text: String)
    ensures
        text@ == variant_lines(e@.variants),
{
    let mut text = String::new();
    let mut i: usize = 0;
    while i < e.variants.len()
        invariant
            i <= e.variants.len(),
            text@ == variant_lines(e@.variants.take(i as int)),
        decreases e.variants.len() - i,
    {
        proof {
            assert(e@.variants.take(i + 1).drop_last() =~= e@.variants.take(i as int));
            reveal_strlit(": ");
            reveal_strlit("\n");
        }
        let ghost before = text@;
        push_decimal(&mut text, e.variants[i].value);
        text.append(": ");
        match &e.variants[i].description {
            Some(d) => {
                text.append(d.as_str());
            },
            None => {},
        }
        text.append("\n");
        assert(text@ =~= before + variant_line(e@.variants[i as int]));
        i += 1;
    }
    assert(e@.variants.take(i as int) =~= e@.variants);
    text
}

/// For every enumeration whose identifier the pattern matches and, where
/// `bit_size` is given, whose bit size it is: the variant lines, by
/// identifier.
pub fn extract_variant_desc_with(ir: &IR, re: &Pattern, bit_size: Option<u32>) -> (descs: DescMap)
    ensures
        desc_texts(descs@) == variant_descs(ir@.enums, re@, bit_size),
{
    let mut descs: DescMap = StringHashMap::new();
    let mut i: usize = 0;
    assert(desc_texts(descs@) =~= Map::<Seq<char>, Seq<char>>::empty());
    while i < ir.enums.len()
        invariant
            i <= ir.enums.len(),
            desc_texts(descs@) == variant_descs(ir@.enums.take(i as int), re@, bit_size),
        decreases ir.enums.len() - i,
    {
        proof {
            assert(ir@.enums.take(i + 1).drop_last() =~= ir@.enums.take(i as int));
        }
        let size_fits: bool = match bit_size {
            Some(s) => s == ir.enums[i].1.bit_size,
            None => true,
        };
        if size_fits && is_match(re, ir.enums[i].0.as_str()) {
            let ghost before = descs@;
            let text = describe_variants(&ir.enums[i].1);
            descs.insert(ir.enums[i].0.clone(), text);
            assert(desc_texts(descs@) =~= desc_texts(before).insert(ir.enums[i as int].0@, text@));
        }
        i += 1;
    }
    assert(ir@.enums.take(i as int) =~= ir@.enums);
    descs
}

/// Compiles `enum_names` to match whole identifiers and gives, for every
/// enumeration that it matches and, where `bit_size` is given, whose bit
/// size it is, the variant lines by identifier. Fails where the pattern
/// does not compile.
pub fn extract_variant_desc(ir: &IR, enum_names: &str, bit_size: Option<u32>) -> (r: Result<
    DescMap,
    PatternError,
>)
    ensures
        r is Ok <==> pattern_compiles(enum_names@) && pattern_compiles(anchored(enum_names@)),
        r matches Ok(descs) ==> desc_texts(descs@) == variant_descs(
            ir@.enums,
            anchored(enum_names@),
            bit_size,
        ),
{
    match make_regex(enum_names) {
        Ok(re) => Ok(extract_variant_desc_with(ir, &re, bit_size)),
        Err(e) => Err(e),
    }
}

/// Whether a field takes a description: where a bit size is given it has
/// that bit size, and it refers to an enumeration that `descs` has an entry
/// for.
pub open spec fn takes_desc(
    f: FieldView,
    descs: Map<Seq<char>, Seq<char>>,
    bit_size: Option<u32>,
) -> bool {
    &&& bit_size matches Some(s) ==> s == f.bit_size
    &&& f.enumm matches Some(e) && descs.contains_key(e)
}

/// A field with the entry of its enumeration appended to its description,
/// after a line feed, or made its description where it had none. A field
/// that takes no description is left as it is.
pub open spec fn field_with_desc(
    f: FieldView,
    descs: Map<Seq<char>, Seq<char>>,
    bit_size: Option<u32>,
) -> FieldView {
    if takes_desc(f, descs, bit_size) {
        let text = descs[f.enumm->Some_0];
        FieldView {
            description: Some(
                match f.description {
                    Some(d) => d + seq!['\n'] + text,
                    None => text,
                },
            ),
            ..f
        }
    } else {
        f
    }
}

/// A field set with the descriptions appended to every field.
pub open spec fn fieldset_with_descs(
    s: FieldSetView,
    descs: Map<Seq<char>, Seq<char>>,
    bit_size: Option<u32>,
) -> FieldSetView {
    FieldSetView { fields: s.fields.map_values(|f: FieldView| field_with_desc(f, descs, bit_size)), ..s }
}

/// A description with the descriptions appended to every field of every
/// field set, and nothing else changed.
pub open spec fn with_variant_descs(
    ir: IRView,
    descs: Map<Seq<char>, Seq<char>>,
    bit_size: Option<u32>,
) -> IRView {
    IRView {
        fieldsets: ir.fieldsets.map_values(
            |e: (Seq<char>, FieldSetView)| (e.0, fieldset_with_descs(e.1, descs, bit_size)),
        ),
        ..ir
    }
}

/// Appends the entry of its enumeration to one field, where it takes one.
fn append_desc_to_field(f: &mut Field, descs: &DescMap, bit_size: Option<u32>)
    ensures
        final(f)@ == field_with_desc(old(f)@, desc_texts(descs@), bit_size),
{
    let size_fits: bool = match bit_size {
        Some(s) => s == f.bit_size,
        None => true,
    };
    if !size_fits {
        return ;
    }
    let found: Option<&String> = match &f.enumm {
        Some(e) => descs.get(e.as_str()),
        None => None,
    };
    match found {
        Some(text) => {
            let grown: String = match &f.description {
                Some(d) => {
                    let mut s = d.clone();
                    s.append("\n");
                    s.append(text.as_str());
                    proof {
                        reveal_strlit("\n");
                    }
                    assert(s@ =~= d@ + seq!['\n'] + text@);
                    s
                },
                None => text.clone(),
            };
            f.description = Some(grown);
        },
        None => {},
    }
}

/// Appends the descriptions to every field of a field set.
fn append_descs_to_fieldset(fs: &mut FieldSet, descs: &DescMap, bit_size: Option<u32>)
    ensures
        final(fs)@ == fieldset_with_descs(old(fs)@, desc_texts(descs@), bit_size),
{
    let n: usize = fs.fields.len();
    let mut j: usize = 0;
    while j < n
        invariant
            j <= n,
            fs.fields.len() == n,
            old(fs).fields.len() == n,
            fs.description == old(fs).description,
            fs.bit_size == old(fs).bit_size,
            forall|q: int|
                0 <= q < j ==> (#[trigger] fs.fields[q])@ == field_with_desc(
                    old(fs).fields[q]@,
                    desc_texts(descs@),
                    bit_size,
                ),
            forall|q: int| j <= q < n ==> fs.fields[q] == old(fs).fields[q],
        decreases n - j,
    {
        append_desc_to_field(&mut fs.fields[j], descs, bit_size);
        j += 1;
    }
    assert(fs@.fields =~= fieldset_with_descs(old(fs)@, desc_texts(descs@), bit_size).fields);
}

/// Appends, to the description of every field that refers to an enumeration
/// with an entry in `enum_desc_pair` and, where `bit_size` is given, has
/// that bit size, the entry of its enumeration. Nothing is left out for
/// being there already: a second call appends the entry again.
pub fn append_variant_desc_to_field(
    ir: &mut IR,
    enum_desc_pair: &DescMap,
    bit_size: Option<u32>,
)
    ensures
        final(ir)@ == with_variant_descs(old(ir)@, desc_texts(enum_desc_pair@), bit_size),
{
    let n: usize = ir.fieldsets.len();
    let mut i: usize = 0;
    while i < n
        invariant
            i <= n,
            ir.fieldsets.len() == n,
            old(ir).fieldsets.len() == n,
            ir.devices == old(ir).devices,
            ir.blocks == old(ir).blocks,
            ir.enums == old(ir).enums,
            forall|k: int|
                0 <= k < i ==> (#[trigger] ir.fieldsets[k]).0 == old(ir).fieldsets[k].0
                    && ir.fieldsets[k].1@ == fieldset_with_descs(
                    old(ir).fieldsets[k].1@,
                    desc_texts(enum_desc_pair@),
                    bit_size,
                ),
            forall|k: int| i <= k < n ==> ir.fieldsets[k] == old(ir).fieldsets[k],
        decreases n - i,
    {
        append_descs_to_fieldset(&mut ir.fieldsets[i].1, enum_desc_pair, bit_size);
        i += 1;
    }
    assert(ir@.fieldsets =~= with_variant_descs(
        old(ir)@,
        desc_texts(enum_desc_pair@),
        bit_size,
    ).fieldsets);
}

/// Appending twice appends the entry twice: a field that takes a
/// description takes it again, after a line feed; any other field stays as
/// it was.
pub proof fn lemma_append_twice(
    ir: IRView,
    descs: Map<Seq<char>, Seq<char>>,
    bit_size: Option<u32>,
    i: int,
    j: int,
)
    requires
        0 <= i < ir.fieldsets.len(),
        0 <= j < ir.fieldsets[i].1.fields.len(),
    ensures
        ({
            let given = ir.fieldsets[i].1.fields[j];
            let once = with_variant_descs(ir, descs, bit_size).fieldsets[i].1.fields[j];
            let twice = with_variant_descs(
                with_variant_descs(ir, descs, bit_size),
                descs,
                bit_size,
            ).fieldsets[i].1.fields[j];
            if takes_desc(given, descs, bit_size) {
                &&& once.description == Some(
                    match given.description {
                        Some(d) => d + seq!['\n'] + descs[given.enumm->Some_0],
                        None => descs[given.enumm->Some_0],
                    },
                )
                &&& twice.description == Some(
                    once.description->Some_0 + seq!['\n'] + descs[given.enumm->Some_0],
                )
            } else {
                once == given && twice == given
            }
        }),
{
}

/// Appending descriptions keeps every reference resolved.
pub proof fn lemma_append_keeps_resolved(
    ir: IRView,
    descs: Map<Seq<char>, Seq<char>>,
    bit_size: Option<u32>,
)
    requires
        ir.resolved(),
    ensures
        with_variant_descs(ir, descs, bit_size).resolved(),
{
    let now = with_variant_descs(ir, descs, bit_size);
    lemma_same_ids(ir, now);
    assert forall|i: int, j: int|
        0 <= i < now.fieldsets.len() && 0 <= j < now.fieldsets[i].1.fields.len() implies match (
    #[trigger] now.fieldsets[i].1.fields[j]).enumm {
        Some(e) => now.has_enum(e),
        None => true,
    } by {
        let before = ir.fieldsets[i].1.fields[j];
        assert(now.fieldsets[i].1 == fieldset_with_descs(ir.fieldsets[i].1, descs, bit_size));
        assert(now.fieldsets[i].1.fields[j] == field_with_desc(before, descs, bit_size));
        match before.enumm {
            Some(e) => {
                assert(ir.has_enum(e));
            },
            None => {},
        }
    }
    assert forall|i: int, j: int|
        0 <= i < now.blocks.len() && 0 <= j < now.blocks[i].1.items.len() implies match (
    #[trigger] now.blocks[i].1.items[j]).inner {
        BlockItemInnerView::Register { fieldset: Some(f), .. } => now.has_fieldset(f),
        BlockItemInnerView::Register { fieldset: None, .. } => true,
        BlockItemInnerView::Block { block } => now.has_block(block),
    } by {
        let before = ir.blocks[i].1.items[j];
        assert(now.blocks[i].1.items[j] == before);
        match before.inner {
            BlockItemInnerView::Register { fieldset: Some(f), .. } => {
                assert(ir.has_fieldset(f));
            },
            BlockItemInnerView::Register { fieldset: None, .. } => {},
            BlockItemInnerView::Block { block } => {
                assert(ir.has_block(block));
            },
        }
    }
    assert forall|i: int, j: int|
        0 <= i < now.devices.len() && 0 <= j < now.devices[i].1.peripherals.len() implies match (
    #[trigger] now.devices[i].1.peripherals[j]).block {
        Some(b) => now.has_block(b),
        None => true,
    } by {
        let before = ir.devices[i].1.peripherals[j];
        assert(now.devices[i].1.peripherals[j] == before);
        match before.block {
            Some(b) => {
                assert(ir.has_block(b));
            },
            None => {},
        }
    }
}

/// Appending descriptions changes no identifier of an entry: where the
/// identifiers were unique, they still are.
pub proof fn lemma_append_keeps_unique_ids(
    ir: IRView,
    descs: Map<Seq<char>, Seq<char>>,
    bit_size: Option<u32>,
)
    requires
        ir.unique_ids(),
    ensures
        with_variant_descs(ir, descs, bit_size).unique_ids(),
{
    assert(ids_of(with_variant_descs(ir, descs, bit_size).fieldsets) =~= ids_of(ir.fieldsets));
}

/// Where the identifiers are unique, the entry of every enumeration asked
/// for holds its variant lines.
pub proof fn lemma_variant_descs_of_unique_ids(
    enums: Seq<(Seq<char>, EnumView)>,
    pattern: Seq<char>,
    bit_size: Option<u32>,
    i: int,
)
    requires
        ids_of(enums).no_duplicates(),
        0 <= i < enums.len(),
        wanted(enums[i].0, enums[i].1, pattern, bit_size),
    ensures
        variant_descs(enums, pattern, bit_size).contains_key(enums[i].0),
        variant_descs(enums, pattern, bit_size)[enums[i].0] == variant_lines(enums[i].1.variants),
{
    assert forall|j: int| i < j < enums.len() implies enums[j].0 != enums[i].0 by {
        assert(ids_of(enums)[j] == enums[j].0);
        assert(ids_of(enums)[i] == enums[i].0);
    }
    lemma_variant_descs_entry(enums, pattern, bit_size, i);
}

} // verus!
