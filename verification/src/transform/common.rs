//! Whether two enumerations, or two field sets, may be merged into one.
use vstd::prelude::*;
use crate::ir::{
    opt_array, opt_text, Array, Enum, EnumVariant, EnumVariantView, EnumView, Field, FieldSet,
    FieldSetView, FieldView,
};
use crate::transform::tally::{
    claimed_occurrences, first_surplus, lemma_all_claimed, lemma_claim, lemma_first_surplus_skip,
    lemma_first_fit_is_rearrangement, lemma_first_surplus_least, lemma_free_entry,
    lemma_no_surplus_against_itself, lemma_nothing_claimed,
    lemma_occurrences_step, occurrences, surplus_at,
};

verus! {

/// The most variants an enumeration may have to be matched.
pub const MAX_VARIANTS: usize = 1024;

/// The most fields a field set may have to be matched.
pub const MAX_FIELDS: usize = 128;

/// How much two entities must agree on to be merged. Each level asks for
/// what the levels before it ask, and for one thing more.
#[derive(Debug, Eq, PartialEq, Ord, PartialOrd, Clone, Copy, Structural)]
pub enum CheckLevel {
    /// Equal bit size only.
    NoCheck,
    /// And children that pair up with equal layout.
    Layout,
    /// And equal names within each pair.
    Names,
    /// And equal descriptions within each pair.
    Descriptions,
}

impl CheckLevel {
    /// The position of the level in the order of strictness.
    pub open spec fn rank(self) -> nat {
        match self {
            CheckLevel::NoCheck => 0,
            CheckLevel::Layout => 1,
            CheckLevel::Names => 2,
            CheckLevel::Descriptions => 3,
        }
    }

    /// Whether this level asks for everything that `other` asks for.
    pub open spec fn includes(self, other: CheckLevel) -> bool {
        self.rank() >= other.rank()
    }

    /// Whether this level asks for everything that `other` asks for.
    pub fn at_least(self, other: CheckLevel) -> (r: bool)
        ensures
            r == self.includes(other),
    {
        let mine: u8 = match self {
            CheckLevel::NoCheck => 0,
            CheckLevel::Layout => 1,
            CheckLevel::Names => 2,
            CheckLevel::Descriptions => 3,
        };
        let theirs: u8 = match other {
            CheckLevel::NoCheck => 0,
            CheckLevel::Layout => 1,
            CheckLevel::Names => 2,
            CheckLevel::Descriptions => 3,
        };
        mine >= theirs
    }
}

impl Default for CheckLevel {
    fn default() -> (level: Self)
        ensures
            level == CheckLevel::Names,
    {
        CheckLevel::Names
    }
}

/// Why two entities cannot be merged.
#[derive(Debug, Eq, PartialEq, Clone, Copy, Structural)]
pub enum MergeCause {
    /// The bit sizes differ.
    BitSize { first: u32, second: u32 },
    /// The numbers of children differ.
    Count,
    /// There are more children than can be matched.
    Capacity,
    /// The child of the first entity at `index` has no partner left in the
    /// second.
    NoMatch { index: usize },
}

/// A refused merge: the two entities and the cause.
#[derive(Clone, Copy, Debug)]
pub struct Unmergeable<'a, T> {
    pub first: &'a T,
    pub second: &'a T,
    pub cause: MergeCause,
}

/// Whether two optional strings hold the same text, or both none.
pub fn same_text(a: &Option<String>, b: &Option<String>) -> (r: bool)
    ensures
        r == (opt_text(*a) == opt_text(*b)),
{
    match (a, b) {
        (Some(x), Some(y)) => *x == *y,
        (None, None) => true,
        _ => false,
    }
}

/// Whether two lists of offsets are equal.
pub fn same_offsets(a: &Vec<u32>, b: &Vec<u32>) -> (r: bool)
    ensures
        r == (a@ == b@),
{
    if a.len() != b.len() {
        return false;
    }
    let mut i: usize = 0;
    while i < a.len()
        invariant
            a.len() == b.len(),
            i <= a.len(),
            forall|j: int| 0 <= j < i ==> a@[j] == b@[j],
        decreases a.len() - i,
    {
        if a[i] != b[i] {
            return false;
        }
        i += 1;
    }
    assert(a@ =~= b@);
    true
}

/// Whether two optional array shapes are equal.
pub fn same_array(a: &Option<Array>, b: &Option<Array>) -> (r: bool)
    ensures
        r == (opt_array(*a) == opt_array(*b)),
{
    match (a, b) {
        (Some(Array::Regular(x)), Some(Array::Regular(y))) => x.len == y.len && x.stride
            == y.stride,
        (Some(Array::Cursed(x)), Some(Array::Cursed(y))) => same_offsets(&x.offsets, &y.offsets),
        (None, None) => true,
        _ => false,
    }
}

/// A list of `n` positions, none of them claimed.
fn none_claimed(n: usize) -> (claimed: Vec<bool>)
    ensures
        claimed.len() == n,
        forall|j: int| 0 <= j < n ==> !claimed@[j],
{
    let mut claimed: Vec<bool> = Vec::new();
    let mut k: usize = 0;
    while k < n
        invariant
            k <= n,
            claimed.len() == k,
            forall|j: int| 0 <= j < k ==> !claimed@[j],
        decreases n - k,
    {
        claimed.push(false);
        k += 1;
    }
    claimed
}

/// Two variants agree at a level: on the value from `Layout` on, on the name
/// from `Names` on, on the description at `Descriptions`.
pub open spec fn variants_agree(a: EnumVariantView, b: EnumVariantView, level: CheckLevel) -> bool {
    &&& level.includes(CheckLevel::Layout) ==> a.value == b.value
    &&& level.includes(CheckLevel::Names) ==> a.name == b.name
    &&& level.includes(CheckLevel::Descriptions) ==> a.description == b.description
}

/// What a level reads of a variant. Two variants agree at a level exactly
/// where their keys are equal.
pub open spec fn variant_key(v: EnumVariantView, level: CheckLevel) -> EnumVariantView {
    EnumVariantView {
        value: if level.includes(CheckLevel::Layout) {
            v.value
        } else {
            0
        },
        name: if level.includes(CheckLevel::Names) {
            v.name
        } else {
            Seq::empty()
        },
        description: if level.includes(CheckLevel::Descriptions) {
            v.description
        } else {
            None
        },
    }
}

/// The keys of an enumeration's variants, in order.
pub open spec fn variant_keys(e: EnumView, level: CheckLevel) -> Seq<EnumVariantView> {
    e.variants.map_values(|v: EnumVariantView| variant_key(v, level))
}

/// The outcome of checking two enumerations: the bit sizes must be equal;
/// from `Layout` on the variants must be equally many, at most
/// `MAX_VARIANTS`, and each variant of the first, in order, must find a
/// variant of the second that agrees with it and that no earlier variant
/// has taken.
pub open spec fn enum_verdict(a: EnumView, b: EnumView, level: CheckLevel) -> Result<
    (),
    MergeCause,
> {
    if a.bit_size != b.bit_size {
        Err(MergeCause::BitSize { first: a.bit_size, second: b.bit_size })
    } else if !level.includes(CheckLevel::Layout) {
        Ok(())
    } else if a.variants.len() != b.variants.len() {
        Err(MergeCause::Count)
    } else if a.variants.len() > MAX_VARIANTS {
        Err(MergeCause::Capacity)
    } else {
        match first_surplus(variant_keys(a, level), variant_keys(b, level)) {
            Some(i) => Err(MergeCause::NoMatch { index: i as usize }),
            None => Ok(()),
        }
    }
}

/// Whether two variants agree at a level.
pub fn mergeable_variants(a: &EnumVariant, b: &EnumVariant, level: CheckLevel) -> (res: bool)
    ensures
        res == variants_agree(a@, b@, level),
        res == (variant_key(a@, level) == variant_key(b@, level)),
{
    let mut res: bool = true;
    if level.at_least(CheckLevel::Layout) {
        res = res && a.value == b.value;
    }
    if level.at_least(CheckLevel::Names) {
        res = res && a.name == b.name;
    }
    if level.at_least(CheckLevel::Descriptions) {
        res = res && same_text(&a.description, &b.description);
    }
    res
}

/// Checks two enumerations and gives the cause where they cannot be merged.
/// The variants are paired first fit: each variant of `a`, in order, takes
/// the first variant of `b` that agrees with it and is still free.
pub fn check_mergeable_enums_inner(a: &Enum, b: &Enum, level: CheckLevel) -> (r: Result<
    (),
    MergeCause,
>)
    ensures
        r == enum_verdict(a@, b@, level),
        a.bit_size != b.bit_size ==> r == Err::<(), MergeCause>(
            MergeCause::BitSize { first: a.bit_size, second: b.bit_size },
        ),
{
    if a.bit_size != b.bit_size {
        return Err(MergeCause::BitSize { first: a.bit_size, second: b.bit_size });
    }
    if !level.at_least(CheckLevel::Layout) {
        return Ok(());
    }
    let n: usize = a.variants.len();
    if n != b.variants.len() {
        return Err(MergeCause::Count);
    }
    if n > MAX_VARIANTS {
        return Err(MergeCause::Capacity);
    }
    let ghost ka = variant_keys(a@, level);
    let ghost kb = variant_keys(b@, level);
    let mut claimed: Vec<bool> = none_claimed(n);
    proof {
        assert forall|x: EnumVariantView| #[trigger]
            claimed_occurrences(kb, claimed@, x) == occurrences(ka.take(0), x) by {
            lemma_nothing_claimed(kb, claimed@, x);
        }
    }
    let mut ia: usize = 0;
    while ia < n
        invariant
            ia <= n,
            n == a.variants.len(),
            n == b.variants.len(),
            n <= MAX_VARIANTS,
            a.bit_size == b.bit_size,
            level.includes(CheckLevel::Layout),
            claimed.len() == n,
            ka == variant_keys(a@, level),
            kb == variant_keys(b@, level),
            forall|x: EnumVariantView| #[trigger]
                claimed_occurrences(kb, claimed@, x) == occurrences(ka.take(ia as int), x),
            forall|p: int| 0 <= p < ia ==> !surplus_at(ka, kb, p),
        decreases n - ia,
    {
        let mut ib: usize = 0;
        let mut found: bool = false;
        while ib < n && !found
            invariant
                ib <= n,
                ia < n,
                n == a.variants.len(),
                n == b.variants.len(),
                claimed.len() == n,
                ka == variant_keys(a@, level),
                kb == variant_keys(b@, level),
                !found ==> forall|j: int| 0 <= j < ib ==> claimed@[j] || kb[j] != ka[ia as int],
                found ==> ib < n && !claimed@[ib as int] && kb[ib as int] == ka[ia as int],
            decreases n - ib + if found { 0int } else { 1int },
        {
            if !claimed[ib] && mergeable_variants(&a.variants[ia], &b.variants[ib], level) {
                found = true;
            } else {
                ib += 1;
            }
        }
        proof {
            lemma_occurrences_step(ka, ia as int, ka[ia as int]);
        }
        if !found {
            proof {
                lemma_all_claimed(kb, claimed@, ka[ia as int]);
                lemma_first_surplus_skip(ka, kb, 0, ia as int);
            }
            return Err(MergeCause::NoMatch { index: ia });
        }
        proof {
            lemma_free_entry(kb, claimed@, ib as int, ka[ia as int]);
            assert forall|x: EnumVariantView| #[trigger]
                claimed_occurrences(kb, claimed@.update(ib as int, true), x) == occurrences(
                    ka.take(ia + 1),
                    x,
                ) by {
                lemma_claim(kb, claimed@, ib as int, x);
                lemma_occurrences_step(ka, ia as int, x);
            }
        }
        claimed[ib] = true;
        ia += 1;
    }
    proof {
        lemma_first_surplus_skip(ka, kb, 0, n as int);
    }
    Ok(())
}

/// Checks two enumerations. A refusal carries both enumerations and the
/// cause.
pub fn check_mergeable_enums<'a>(a: &'a Enum, b: &'a Enum, level: CheckLevel) -> (r: Result<
    (),
    Unmergeable<'a, Enum>,
>)
    ensures
        r is Ok <==> enum_verdict(a@, b@, level) is Ok,
        r matches Err(e) ==> e.first == a && e.second == b && enum_verdict(a@, b@, level) == Err::<
            (),
            MergeCause,
        >(e.cause),
{
    match check_mergeable_enums_inner(a, b, level) {
        Ok(()) => Ok(()),
        Err(cause) => Err(Unmergeable { first: a, second: b, cause }),
    }
}

/// Two fields agree at a level: on bit offset, bit size, enumeration and
/// array shape from `Layout` on, on the name from `Names` on, on the
/// description at `Descriptions`.
pub open spec fn fields_agree(a: FieldView, b: FieldView, level: CheckLevel) -> bool {
    &&& level.includes(CheckLevel::Layout) ==> a.bit_size == b.bit_size && a.bit_offset
        == b.bit_offset && a.enumm == b.enumm && a.array == b.array
    &&& level.includes(CheckLevel::Names) ==> a.name == b.name
    &&& level.includes(CheckLevel::Descriptions) ==> a.description == b.description
}

/// What a level reads of a field. Two fields agree at a level exactly where
/// their keys are equal.
pub open spec fn field_key(f: FieldView, level: CheckLevel) -> FieldView {
    FieldView {
        bit_offset: if level.includes(CheckLevel::Layout) {
            f.bit_offset
        } else {
            0
        },
        bit_size: if level.includes(CheckLevel::Layout) {
            f.bit_size
        } else {
            0
        },
        enumm: if level.includes(CheckLevel::Layout) {
            f.enumm
        } else {
            None
        },
        array: if level.includes(CheckLevel::Layout) {
            f.array
        } else {
            None
        },
        name: if level.includes(CheckLevel::Names) {
            f.name
        } else {
            Seq::empty()
        },
        description: if level.includes(CheckLevel::Descriptions) {
            f.description
        } else {
            None
        },
    }
}

/// The keys of a field set's fields, in order.
pub open spec fn field_keys(s: FieldSetView, level: CheckLevel) -> Seq<FieldView> {
    s.fields.map_values(|f: FieldView| field_key(f, level))
}

/// The outcome of checking two field sets: the bit sizes must be equal; from
/// `Layout` on the fields must be equally many, at most `MAX_FIELDS`, and
/// each field of the first, in order, must find a field of the second that
/// agrees with it and that no earlier field has taken.
pub open spec fn fieldset_verdict(a: FieldSetView, b: FieldSetView, level: CheckLevel) -> Result<
    (),
    MergeCause,
> {
    if a.bit_size != b.bit_size {
        Err(MergeCause::BitSize { first: a.bit_size, second: b.bit_size })
    } else if !level.includes(CheckLevel::Layout) {
        Ok(())
    } else if a.fields.len() != b.fields.len() {
        Err(MergeCause::Count)
    } else if a.fields.len() > MAX_FIELDS {
        Err(MergeCause::Capacity)
    } else {
        match first_surplus(field_keys(a, level), field_keys(b, level)) {
            Some(i) => Err(MergeCause::NoMatch { index: i as usize }),
            None => Ok(()),
        }
    }
}

/// Whether two fields agree at a level.
pub fn mergeable_fields(a: &Field, b: &Field, level: CheckLevel) -> (res: bool)
    ensures
        res == fields_agree(a@, b@, level),
        res == (field_key(a@, level) == field_key(b@, level)),
{
    let mut res: bool = true;
    if level.at_least(CheckLevel::Layout) {
        res = res && a.bit_size == b.bit_size && a.bit_offset == b.bit_offset && same_text(
            &a.enumm,
            &b.enumm,
        ) && same_array(&a.array, &b.array);
    }
    if level.at_least(CheckLevel::Names) {
        res = res && a.name == b.name;
    }
    if level.at_least(CheckLevel::Descriptions) {
        res = res && same_text(&a.description, &b.description);
    }
    res
}

/// Checks two field sets and gives the cause where they cannot be merged.
/// The fields are paired first fit: each field of `a`, in order, takes the
/// first field of `b` that agrees with it and is still free.
pub fn check_mergeable_fieldsets_inner(a: &FieldSet, b: &FieldSet, level: CheckLevel) -> (r:
    Result<(), MergeCause>)
    ensures
        r == fieldset_verdict(a@, b@, level),
        a.bit_size != b.bit_size ==> r == Err::<(), MergeCause>(
            MergeCause::BitSize { first: a.bit_size, second: b.bit_size },
        ),
{
    if a.bit_size != b.bit_size {
        return Err(MergeCause::BitSize { first: a.bit_size, second: b.bit_size });
    }
    if !level.at_least(CheckLevel::Layout) {
        return Ok(());
    }
    let n: usize = a.fields.len();
    if n != b.fields.len() {
        return Err(MergeCause::Count);
    }
    if n > MAX_FIELDS {
        return Err(MergeCause::Capacity);
    }
    let ghost ka = field_keys(a@, level);
    let ghost kb = field_keys(b@, level);
    let mut claimed: Vec<bool> = none_claimed(n);
    proof {
        assert forall|x: FieldView| #[trigger]
            claimed_occurrences(kb, claimed@, x) == occurrences(ka.take(0), x) by {
            lemma_nothing_claimed(kb, claimed@, x);
        }
    }
    let mut ia: usize = 0;
    while ia < n
        invariant
            ia <= n,
            n == a.fields.len(),
            n == b.fields.len(),
            n <= MAX_FIELDS,
            a.bit_size == b.bit_size,
            level.includes(CheckLevel::Layout),
            claimed.len() == n,
            ka == field_keys(a@, level),
            kb == field_keys(b@, level),
            forall|x: FieldView| #[trigger]
                claimed_occurrences(kb, claimed@, x) == occurrences(ka.take(ia as int), x),
            forall|p: int| 0 <= p < ia ==> !surplus_at(ka, kb, p),
        decreases n - ia,
    {
        let mut ib: usize = 0;
        let mut found: bool = false;
        while ib < n && !found
            invariant
                ib <= n,
                ia < n,
                n == a.fields.len(),
                n == b.fields.len(),
                claimed.len() == n,
                ka == field_keys(a@, level),
                kb == field_keys(b@, level),
                !found ==> forall|j: int| 0 <= j < ib ==> claimed@[j] || kb[j] != ka[ia as int],
                found ==> ib < n && !claimed@[ib as int] && kb[ib as int] == ka[ia as int],
            decreases n - ib + if found { 0int } else { 1int },
        {
            if !claimed[ib] && mergeable_fields(&a.fields[ia], &b.fields[ib], level) {
                found = true;
            } else {
                ib += 1;
            }
        }
        proof {
            lemma_occurrences_step(ka, ia as int, ka[ia as int]);
        }
        if !found {
            proof {
                lemma_all_claimed(kb, claimed@, ka[ia as int]);
                lemma_first_surplus_skip(ka, kb, 0, ia as int);
            }
            return Err(MergeCause::NoMatch { index: ia });
        }
        proof {
            lemma_free_entry(kb, claimed@, ib as int, ka[ia as int]);
            assert forall|x: FieldView| #[trigger]
                claimed_occurrences(kb, claimed@.update(ib as int, true), x) == occurrences(
                    ka.take(ia + 1),
                    x,
                ) by {
                lemma_claim(kb, claimed@, ib as int, x);
                lemma_occurrences_step(ka, ia as int, x);
            }
        }
        claimed[ib] = true;
        ia += 1;
    }
    proof {
        lemma_first_surplus_skip(ka, kb, 0, n as int);
    }
    Ok(())
}

/// Checks two field sets. A refusal carries both field sets and the cause.
pub fn check_mergeable_fieldsets<'a>(a: &'a FieldSet, b: &'a FieldSet, level: CheckLevel) -> (r:
    Result<(), Unmergeable<'a, FieldSet>>)
    ensures
        r is Ok <==> fieldset_verdict(a@, b@, level) is Ok,
        r matches Err(e) ==> e.first == a && e.second == b && fieldset_verdict(a@, b@, level)
            == Err::<(), MergeCause>(e.cause),
{
    match check_mergeable_fieldsets_inner(a, b, level) {
        Ok(()) => Ok(()),
        Err(cause) => Err(Unmergeable { first: a, second: b, cause }),
    }
}

/// An enumeration with at most `MAX_VARIANTS` variants may be merged with
/// itself, at every level.
pub proof fn lemma_enum_mergeable_with_itself(a: EnumView, level: CheckLevel)
    requires
        a.variants.len() <= MAX_VARIANTS,
    ensures
        enum_verdict(a, a, level) is Ok,
{
    lemma_no_surplus_against_itself(variant_keys(a, level));
}

/// A field set with at most `MAX_FIELDS` fields may be merged with itself,
/// at every level.
pub proof fn lemma_fieldset_mergeable_with_itself(a: FieldSetView, level: CheckLevel)
    requires
        a.fields.len() <= MAX_FIELDS,
    ensures
        fieldset_verdict(a, a, level) is Ok,
{
    lemma_no_surplus_against_itself(field_keys(a, level));
}

/// Two enumerations of different bit size are refused at every level, and
/// the cause names the two sizes.
pub proof fn lemma_enum_bit_size_decides(a: EnumView, b: EnumView, level: CheckLevel)
    requires
        a.bit_size != b.bit_size,
    ensures
        enum_verdict(a, b, level) == Err::<(), MergeCause>(
            MergeCause::BitSize { first: a.bit_size, second: b.bit_size },
        ),
{
}

/// Two field sets of different bit size are refused at every level, and the
/// cause names the two sizes.
pub proof fn lemma_fieldset_bit_size_decides(a: FieldSetView, b: FieldSetView, level: CheckLevel)
    requires
        a.bit_size != b.bit_size,
    ensures
        fieldset_verdict(a, b, level) == Err::<(), MergeCause>(
            MergeCause::BitSize { first: a.bit_size, second: b.bit_size },
        ),
{
}

/// At `NoCheck` two enumerations may be merged exactly where their bit sizes
/// are equal.
pub proof fn lemma_enum_no_check(a: EnumView, b: EnumView)
    ensures
        enum_verdict(a, b, CheckLevel::NoCheck) is Ok <==> a.bit_size == b.bit_size,
{
}

/// A variant without a partner is the first such variant: every variant
/// before it found a free variant of the second enumeration that agrees
/// with it.
pub proof fn lemma_enum_no_match_is_first(a: EnumView, b: EnumView, level: CheckLevel, index: usize)
    requires
        enum_verdict(a, b, level) == Err::<(), MergeCause>(MergeCause::NoMatch { index }),
    ensures
        index < a.variants.len(),
        surplus_at(variant_keys(a, level), variant_keys(b, level), index as int),
        forall|p: int|
            0 <= p < index ==> !surplus_at(variant_keys(a, level), variant_keys(b, level), p),
{
    lemma_first_surplus_least(variant_keys(a, level), variant_keys(b, level), 0);
}

/// A field without a partner is the first such field: every field before it
/// found a free field of the second field set that agrees with it.
pub proof fn lemma_fieldset_no_match_is_first(
    a: FieldSetView,
    b: FieldSetView,
    level: CheckLevel,
    index: usize,
)
    requires
        fieldset_verdict(a, b, level) == Err::<(), MergeCause>(MergeCause::NoMatch { index }),
    ensures
        index < a.fields.len(),
        surplus_at(field_keys(a, level), field_keys(b, level), index as int),
        forall|p: int| 0 <= p < index ==> !surplus_at(field_keys(a, level), field_keys(b, level), p),
{
    lemma_first_surplus_least(field_keys(a, level), field_keys(b, level), 0);
}

/// Two enumerations may be merged exactly where their bit sizes are equal
/// and, from `Layout` on, the variants of one are the variants of the other
/// in some order, as far as the level reads them, and at most
/// `MAX_VARIANTS`. First fit never refuses a pair that another pairing
/// would accept.
pub proof fn lemma_enums_mergeable_iff_rearranged(a: EnumView, b: EnumView, level: CheckLevel)
    ensures
        enum_verdict(a, b, level) is Ok <==> {
            &&& a.bit_size == b.bit_size
            &&& level.includes(CheckLevel::Layout) ==> {
                &&& a.variants.len() == b.variants.len()
                &&& a.variants.len() <= MAX_VARIANTS
                &&& forall|k: EnumVariantView|
                    occurrences(variant_keys(a, level), k) == occurrences(
                        variant_keys(b, level),
                        k,
                    )
            }
        },
{
    if a.variants.len() == b.variants.len() {
        lemma_first_fit_is_rearrangement(variant_keys(a, level), variant_keys(b, level));
    }
}

/// Two field sets may be merged exactly where their bit sizes are equal
/// and, from `Layout` on, the fields of one are the fields of the other in
/// some order, as far as the level reads them, and at most `MAX_FIELDS`.
pub proof fn lemma_fieldsets_mergeable_iff_rearranged(
    a: FieldSetView,
    b: FieldSetView,
    level: CheckLevel,
)
    ensures
        fieldset_verdict(a, b, level) is Ok <==> {
            &&& a.bit_size == b.bit_size
            &&& level.includes(CheckLevel::Layout) ==> {
                &&& a.fields.len() == b.fields.len()
                &&& a.fields.len() <= MAX_FIELDS
                &&& forall|k: FieldView|
                    occurrences(field_keys(a, level), k) == occurrences(field_keys(b, level), k)
            }
        },
{
    if a.fields.len() == b.fields.len() {
        lemma_first_fit_is_rearrangement(field_keys(a, level), field_keys(b, level));
    }
}

/// Whether two enumerations may be merged does not depend on which of them
/// comes first.
pub proof fn lemma_enums_mergeable_either_way(a: EnumView, b: EnumView, level: CheckLevel)
    ensures
        enum_verdict(a, b, level) is Ok <==> enum_verdict(b, a, level) is Ok,
{
    lemma_enums_mergeable_iff_rearranged(a, b, level);
    lemma_enums_mergeable_iff_rearranged(b, a, level);
}

/// Whether two field sets may be merged does not depend on which of them
/// comes first.
pub proof fn lemma_fieldsets_mergeable_either_way(
    a: FieldSetView,
    b: FieldSetView,
    level: CheckLevel,
)
    ensures
        fieldset_verdict(a, b, level) is Ok <==> fieldset_verdict(b, a, level) is Ok,
{
    lemma_fieldsets_mergeable_iff_rearranged(a, b, level);
    lemma_fieldsets_mergeable_iff_rearranged(b, a, level);
}

} // verus!
