//! Resolved register model: enums and layouts held in an arena, referred to
//! by index, with the geometry and decoding properties the transform engine
//! and the emitter read.

use vstd::prelude::*;

use crate::bits::{
    bit_mask_width, lemma_bit_identities, lsb_of, lsb_pos, low_mask, mask_width, msb_of, msb_pos,
    unpositioned_mask,
};
use crate::{TypeBitwidth, TypeValue};

verus! {

/// One named value of an enum.
pub struct EnumEntry {
    pub name: String,
    pub value: TypeValue,
    pub doc: Option<String>,
}

/// An enumerated type: named values that a field may hold.
pub struct Enum {
    pub name: String,
    pub doc: Option<String>,
    /// Whether the enum belongs to the one layout that uses it.
    pub is_local: bool,
    pub entries: Vec<EnumEntry>,
}

/// How decoding a raw field value into an enum can fail.
#[derive(Debug, Clone, Copy, PartialEq, Eq)]
pub enum UnpackStrategy {
    /// Every value of the enum's minimum bit width is an entry: a lookup
    /// never fails.
    Total,
    /// Every value the field can carry, once masked to the enum's occupied
    /// bits, is an entry: a truncating lookup never fails.
    Truncating,
    /// Some raw value has no entry: decoding reports an error.
    Fallible,
}

/// Whether some entry has the value `v`.
pub open spec fn has_value(entries: Seq<EnumEntry>, v: u128) -> bool {
    exists|k: int| 0 <= k < entries.len() && (#[trigger] entries[k]).value == v
}

/// Whether every value made only of bits of `m` is an entry.
pub open spec fn covers_mask(entries: Seq<EnumEntry>, m: u128) -> bool {
    forall|v: u128| v & !m == 0 ==> #[trigger] has_value(entries, v)
}

/// The union of the bits of the first `n` entry values.
pub open spec fn values_union(entries: Seq<EnumEntry>, n: nat) -> u128
    decreases n,
{
    if n == 0 || n > entries.len() {
        0
    } else {
        values_union(entries, (n - 1) as nat) | entries[n - 1].value
    }
}

/// The largest entry value; zero for no entries.
pub open spec fn max_value(entries: Seq<EnumEntry>, n: nat) -> u128
    decreases n,
{
    if n == 0 || n > entries.len() {
        0
    } else {
        let m = max_value(entries, (n - 1) as nat);
        if entries[n - 1].value > m {
            entries[n - 1].value
        } else {
            m
        }
    }
}

/// Number of bits that the largest value needs (at least one).
pub open spec fn min_bitwidth_of(entries: Seq<EnumEntry>) -> u32 {
    (msb_of(max_value(entries, entries.len())) + 1) as u32
}

/// The union of the bits of all entry values.
pub open spec fn occupied_of(entries: Seq<EnumEntry>) -> u128 {
    values_union(entries, entries.len())
}

/// How a field whose unpositioned mask is `field_mask` decodes into an enum
/// with these entries.
pub open spec fn strategy_of(entries: Seq<EnumEntry>, field_mask: u128) -> UnpackStrategy {
    if covers_mask(entries, low_mask(min_bitwidth_of(entries))) {
        UnpackStrategy::Total
    } else if covers_mask(entries, field_mask & occupied_of(entries)) {
        UnpackStrategy::Truncating
    } else {
        UnpackStrategy::Fallible
    }
}

proof fn lemma_next_subset(v: u128, mask: u128, u: u128)
    by (bit_vector)
    requires
        v & !mask == 0,
        v != mask,
    ensures
        v | !mask < 0xffff_ffff_ffff_ffff_ffff_ffff_ffff_ffffu128,
        (((v | !mask) + 1) as u128 & mask) & !mask == 0,
        v < ((v | !mask) + 1) as u128 & mask,
        v < u < ((v | !mask) + 1) as u128 & mask ==> u & !mask != 0,
{
}

impl Enum {
    /// Bits needed to represent the largest value: the position of its highest
    /// set bit plus one.
    pub fn min_bitwidth(&self) -> (r: TypeBitwidth)
        ensures
            r == min_bitwidth_of(self.entries@),
            1 <= r <= 128,
    {
        let mut max: TypeValue = 0;
        let mut i: usize = 0;
        while i < self.entries.len()
            invariant
                i <= self.entries@.len(),
                max == max_value(self.entries@, i as nat),
            decreases self.entries@.len() - i,
        {
            if self.entries[i].value > max {
                max = self.entries[i].value;
            }
            i = i + 1;
        }
        msb_pos(max) + 1
    }

    /// The union of the bits of all entry values.
    pub fn occupied_bits(&self) -> (r: TypeValue)
        ensures
            r == values_union(self.entries@, self.entries@.len()),
    {
        let mut acc: TypeValue = 0;
        let mut i: usize = 0;
        while i < self.entries.len()
            invariant
                i <= self.entries@.len(),
                acc == values_union(self.entries@, i as nat),
            decreases self.entries@.len() - i,
        {
            acc = acc | self.entries[i].value;
            i = i + 1;
        }
        acc
    }

    /// Whether some entry has the value `v`.
    pub fn has_value(&self, v: TypeValue) -> (r: bool)
        ensures
            r == has_value(self.entries@, v),
    {
        let mut i: usize = 0;
        while i < self.entries.len()
            invariant
                i <= self.entries@.len(),
                forall|k: int| 0 <= k < i ==> (#[trigger] self.entries@[k]).value != v,
            decreases self.entries@.len() - i,
        {
            if self.entries[i].value == v {
                assert(self.entries@[i as int].value == v);
                return true;
            }
            i = i + 1;
        }
        false
    }

    /// Whether every value made only of bits of `mask` is an entry.
    pub fn can_unpack_mask(&self, mask: TypeValue) -> (r: bool)
        ensures
            r == covers_mask(self.entries@, mask),
    {
        let mut v: TypeValue = 0;
        proof {
            lemma_bit_identities();
            assert(0u128 & !mask == 0);
        }
        loop
            invariant
                v & !mask == 0,
                forall|u: u128| u < v && u & !mask == 0 ==> #[trigger] has_value(self.entries@, u),
            decreases mask - v,
        {
            if !self.has_value(v) {
                return false;
            }
            if v == mask {
                proof {
                    assert forall|u: u128| u & !mask == 0 implies #[trigger] has_value(
                        self.entries@,
                        u,
                    ) by {
                        lemma_bit_identities();
                    }
                }
                return true;
            }
            proof {
                lemma_next_subset(v, mask, 0);
            }
            let next = ((v | !mask) + 1) & mask;
            proof {
                lemma_bit_identities();
                assert(next & !mask == 0);
                assert forall|u: u128| u < next && u & !mask == 0 implies #[trigger] has_value(
                    self.entries@,
                    u,
                ) by {
                    lemma_next_subset(v, mask, u);
                }
                lemma_next_subset(v, mask, next);
            }
            v = next;
        }
    }

    /// Whether every value of the enum's minimum bit width is an entry.
    pub fn can_unpack_min_bitwidth(&self) -> (r: bool)
        ensures
            r == covers_mask(self.entries@, low_mask(min_bitwidth_of(self.entries@))),
    {
        let w = self.min_bitwidth();
        self.can_unpack_mask(bit_mask_width(w))
    }

    /// Whether every value a field with unpositioned mask `field_mask` can
    /// carry, masked to the enum's occupied bits, is an entry.
    pub fn can_do_truncating_unpacking(&self, field_mask: TypeValue) -> (r: bool)
        ensures
            r == covers_mask(self.entries@, field_mask & occupied_of(self.entries@)),
    {
        self.can_unpack_mask(field_mask & self.occupied_bits())
    }

    /// How a field with unpositioned mask `field_mask` decodes into this enum.
    pub fn unpack_strategy(&self, field_mask: TypeValue) -> (r: UnpackStrategy)
        ensures
            r == strategy_of(self.entries@, field_mask),
    {
        if self.can_unpack_min_bitwidth() {
            UnpackStrategy::Total
        } else if self.can_do_truncating_unpacking(field_mask) {
            UnpackStrategy::Truncating
        } else {
            UnpackStrategy::Fallible
        }
    }
}


/// What a layout field holds.
pub enum FieldType {
    /// A raw unsigned value.
    UInt,
    /// A flag.
    Bool,
    /// A constant that packing always writes; not part of the structure.
    Fixed(TypeValue),
    /// An enum, by its index in the model's enums.
    Enum(usize),
    /// A nested layout, by its index in the model's layouts.
    Layout(usize),
}

/// One named bit field of a layout.
pub struct LayoutField {
    pub name: String,
    /// The bits the field occupies within its layout's value.
    pub mask: TypeValue,
    pub doc: Option<String>,
    pub accepts: FieldType,
}

/// A bit-field schema for one fixed-width byte sequence.
pub struct Layout {
    pub name: String,
    pub doc: Option<String>,
    /// Whether the layout belongs to one register only.
    pub is_local: bool,
    pub width_bytes: TypeBitwidth,
    pub fields: Vec<LayoutField>,
}

/// Enums and layouts of a register map, each referred to by its index. A
/// layout refers only to layouts that come before it.
pub struct RegisterModel {
    pub enums: Vec<Enum>,
    pub layouts: Vec<Layout>,
}

/// A violation of the model's invariants, found while adding an item.
#[derive(Debug, Clone, Copy, PartialEq, Eq)]
pub enum SchemaError {
    /// Two entries of an enum share a value (their indices).
    DuplicateEnumValue(usize, usize),
    /// A field occupies no bit.
    EmptyField(usize),
    /// A field refers to an enum that is not in the model.
    UndefinedEnum(usize),
    /// A field refers to a layout that does not come before it.
    UndefinedLayout(usize),
    /// A field's bits cannot hold its type.
    FieldTooNarrow(usize),
    /// Two fields share a bit (their indices).
    Overlap(usize, usize),
    /// The fields reach beyond the largest register width.
    TooWide,
    /// An explicit width is smaller than the fields need.
    WidthTooSmall,
}

/// Whether the entry values are pairwise different.
pub open spec fn values_unique(entries: Seq<EnumEntry>) -> bool {
    forall|a: int, b: int|
        0 <= a < b < entries.len() ==> (#[trigger] entries[a]).value != (#[trigger] entries[b]).value
}

/// The union of the masks of the first `n` fields.
pub open spec fn fields_union(fields: Seq<LayoutField>, n: nat) -> u128
    decreases n,
{
    if n == 0 || n > fields.len() {
        0
    } else {
        fields_union(fields, (n - 1) as nat) | fields[n - 1].mask
    }
}

/// The union of the masks of all fields.
pub open spec fn occupied_mask_of(fields: Seq<LayoutField>) -> u128 {
    fields_union(fields, fields.len())
}

/// The fewest whole bytes that hold every set bit of `m`.
pub open spec fn min_width_bytes(m: u128) -> u32 {
    if m == 0 {
        0
    } else {
        (msb_of(m) / 8 + 1) as u32
    }
}

/// Whether field `f` can hold its type, given the enums and the number of
/// layouts that come before its own.
pub open spec fn field_fits(enums: Seq<Enum>, layouts: Seq<Layout>, n_before: nat, f: LayoutField) -> bool {
    &&& f.mask != 0
    &&& match f.accepts {
        FieldType::Fixed(v) => v & !(f.mask >> lsb_of(f.mask)) == 0,
        FieldType::Enum(e) => e < enums.len() && min_bitwidth_of(enums[e as int].entries@) <= msb_of(
            f.mask,
        ) - lsb_of(f.mask) + 1,
        FieldType::Layout(l) => l < n_before && (occupied_mask_of(layouts[l as int].fields@) << lsb_of(
            f.mask,
        )) & !f.mask == 0 && 8 * layouts[l as int].width_bytes <= msb_of(f.mask) - lsb_of(f.mask)
            + 1,
        _ => true,
    }
}

/// Whether fields `fields` with the width `width` make a valid layout at
/// position `n_before` of the model.
pub open spec fn layout_ok(
    enums: Seq<Enum>,
    layouts: Seq<Layout>,
    n_before: nat,
    fields: Seq<LayoutField>,
    width: u32,
) -> bool {
    &&& forall|k: int| 0 <= k < fields.len() ==> field_fits(enums, layouts, n_before, #[trigger] fields[k])
    &&& forall|a: int, b: int|
        0 <= a < b < fields.len() ==> (#[trigger] fields[a]).mask & (#[trigger] fields[b]).mask == 0
    &&& width <= 16
    &&& min_width_bytes(occupied_mask_of(fields)) <= width
}

/// The width a layout gets: the explicit one when given, else the fewest bytes
/// that hold its fields.
pub open spec fn width_of(fields: Seq<LayoutField>, width_bytes: Option<u32>) -> u32 {
    match width_bytes {
        Some(w) => w,
        None => min_width_bytes(occupied_mask_of(fields)),
    }
}

/// Whether `err` names a genuine violation of the layout invariants by
/// `fields` and `width_bytes`, given the enums and the layouts before it.
pub open spec fn error_holds(
    enums: Seq<Enum>,
    layouts: Seq<Layout>,
    fields: Seq<LayoutField>,
    width_bytes: Option<u32>,
    err: SchemaError,
) -> bool {
    match err {
        SchemaError::EmptyField(k) => k < fields.len() && fields[k as int].mask == 0,
        SchemaError::UndefinedEnum(k) => k < fields.len() && (fields[k as int].accepts matches FieldType::Enum(e)
            && e >= enums.len()),
        SchemaError::UndefinedLayout(k) => k < fields.len() && (fields[k as int].accepts matches FieldType::Layout(l)
            && l >= layouts.len()),
        SchemaError::FieldTooNarrow(k) => k < fields.len() && !field_fits(
            enums,
            layouts,
            layouts.len(),
            fields[k as int],
        ),
        SchemaError::Overlap(a, b) => a < b < fields.len() && fields[a as int].mask & fields[b as int].mask
            != 0,
        SchemaError::TooWide => width_bytes matches Some(w) && w > 16,
        SchemaError::WidthTooSmall => width_bytes matches Some(w) && w < min_width_bytes(
            occupied_mask_of(fields),
        ),
        SchemaError::DuplicateEnumValue(_, _) => false,
    }
}

/// The first violation that field `f`, at index `k`, commits on its own:
/// no bit, a missing enum or layout, or too few bits for its type.
pub open spec fn field_error(
    enums: Seq<Enum>,
    layouts: Seq<Layout>,
    n_before: nat,
    f: LayoutField,
    k: usize,
) -> Option<SchemaError> {
    if f.mask == 0 {
        Some(SchemaError::EmptyField(k))
    } else {
        match f.accepts {
            FieldType::Enum(e) => if e >= enums.len() {
                Some(SchemaError::UndefinedEnum(k))
            } else if !field_fits(enums, layouts, n_before, f) {
                Some(SchemaError::FieldTooNarrow(k))
            } else {
                None
            },
            FieldType::Layout(l) => if l >= n_before {
                Some(SchemaError::UndefinedLayout(k))
            } else if !field_fits(enums, layouts, n_before, f) {
                Some(SchemaError::FieldTooNarrow(k))
            } else {
                None
            },
            _ => if !field_fits(enums, layouts, n_before, f) {
                Some(SchemaError::FieldTooNarrow(k))
            } else {
                None
            },
        }
    }
}

/// The first field among the first `j` that overlaps field `k`.
pub open spec fn overlap_error(fields: Seq<LayoutField>, k: int, j: nat) -> Option<SchemaError>
    decreases j,
{
    if j == 0 {
        None
    } else {
        match overlap_error(fields, k, (j - 1) as nat) {
            Some(e) => Some(e),
            None => if fields[j - 1].mask & fields[k].mask != 0 {
                Some(SchemaError::Overlap((j - 1) as usize, k as usize))
            } else {
                None
            },
        }
    }
}

/// The first violation among the first `n` fields, field by field: its own
/// violations first, then an overlap with an earlier field.
pub open spec fn fields_error(
    enums: Seq<Enum>,
    layouts: Seq<Layout>,
    n_before: nat,
    fields: Seq<LayoutField>,
    n: nat,
) -> Option<SchemaError>
    decreases n,
{
    if n == 0 {
        None
    } else {
        match fields_error(enums, layouts, n_before, fields, (n - 1) as nat) {
            Some(e) => Some(e),
            None => match field_error(enums, layouts, n_before, fields[n - 1], (n - 1) as usize) {
                Some(e) => Some(e),
                None => overlap_error(fields, n - 1, (n - 1) as nat),
            },
        }
    }
}

/// The error that adding a layout with these fields and this width reports:
/// the first field violation, else a width above sixteen bytes, else a width
/// below what the fields need.
pub open spec fn layout_error(
    enums: Seq<Enum>,
    layouts: Seq<Layout>,
    fields: Seq<LayoutField>,
    width_bytes: Option<u32>,
) -> Option<SchemaError> {
    match fields_error(enums, layouts, layouts.len(), fields, fields.len()) {
        Some(e) => Some(e),
        None => match width_bytes {
            Some(w) => if w > 16 {
                Some(SchemaError::TooWide)
            } else if w < min_width_bytes(occupied_mask_of(fields)) {
                Some(SchemaError::WidthTooSmall)
            } else {
                None
            },
            None => None,
        },
    }
}

proof fn lemma_fields_error_sticks(
    enums: Seq<Enum>,
    layouts: Seq<Layout>,
    n_before: nat,
    fields: Seq<LayoutField>,
    n: nat,
    m: nat,
)
    requires
        n <= m,
        fields_error(enums, layouts, n_before, fields, n) is Some,
    ensures
        fields_error(enums, layouts, n_before, fields, m) == fields_error(enums, layouts, n_before, fields, n),
    decreases m - n,
{
    if m > n {
        lemma_fields_error_sticks(enums, layouts, n_before, fields, n, (m - 1) as nat);
    }
}

proof fn lemma_overlap_error_sticks(fields: Seq<LayoutField>, k: int, j: nat, m: nat)
    requires
        j <= m,
        overlap_error(fields, k, j) is Some,
    ensures
        overlap_error(fields, k, m) == overlap_error(fields, k, j),
    decreases m - j,
{
    if m > j {
        lemma_overlap_error_sticks(fields, k, j, (m - 1) as nat);
    }
}

/// The union of the masks of `fields`.
pub fn fields_occupied_mask(fields: &Vec<LayoutField>) -> (r: TypeValue)
    ensures
        r == occupied_mask_of(fields@),
{
    let mut acc: TypeValue = 0;
    let mut i: usize = 0;
    while i < fields.len()
        invariant
            i <= fields@.len(),
            acc == fields_union(fields@, i as nat),
        decreases fields@.len() - i,
    {
        acc = acc | fields[i].mask;
        i = i + 1;
    }
    acc
}

/// The fewest whole bytes that hold every set bit of `mask`.
pub fn bytes_needed(mask: TypeValue) -> (r: TypeBitwidth)
    ensures
        r == min_width_bytes(mask),
        r <= 16,
{
    if mask == 0 {
        0
    } else {
        msb_pos(mask) / 8 + 1
    }
}

impl Layout {
    /// The union of the masks of all fields.
    pub fn occupied_mask(&self) -> (r: TypeValue)
        ensures
            r == occupied_mask_of(self.fields@),
    {
        fields_occupied_mask(&self.fields)
    }
}

/// Whether decoding field `f` can never fail, given whether each nested
/// layout before it can always be decoded.
pub open spec fn field_always_unpacks(model: RegisterModel, f: LayoutField, n_before: nat) -> bool
    decreases n_before, 0nat,
{
    match f.accepts {
        FieldType::Enum(e) => e < model.enums@.len() && strategy_of(
            model.enums@[e as int].entries@,
            f.mask >> lsb_of(f.mask),
        ) != UnpackStrategy::Fallible,
        FieldType::Layout(l) => l < n_before && layout_always_unpacks(model, l as nat),
        _ => true,
    }
}

/// Whether decoding layout `i` from bytes can never fail.
pub open spec fn layout_always_unpacks(model: RegisterModel, i: nat) -> bool
    decreases i, 1nat,
{
    i < model.layouts@.len() && forall|k: int|
        0 <= k < model.layouts@[i as int].fields@.len() ==> field_always_unpacks(
            model,
            #[trigger] model.layouts@[i as int].fields@[k],
            i,
        )
}

/// Whether some field of some layout decodes into enum `e` by truncation.
pub open spec fn truncating_use(model: RegisterModel, e: usize) -> bool {
    exists|l: int, k: int|
        0 <= l < model.layouts@.len() && 0 <= k < model.layouts@[l].fields@.len() && (#[trigger] model.layouts@[l].fields@[k]).accepts
            == FieldType::Enum(e) && e < model.enums@.len() && strategy_of(
            model.enums@[e as int].entries@,
            model.layouts@[l].fields@[k].mask >> lsb_of(model.layouts@[l].fields@[k].mask),
        ) == UnpackStrategy::Truncating
}

/// The local enums that the first `n` fields use, each once, in the order of
/// their first use.
pub open spec fn local_enums_spec(enums: Seq<Enum>, fields: Seq<LayoutField>, n: nat) -> Seq<usize>
    decreases n,
{
    if n == 0 || n > fields.len() {
        Seq::empty()
    } else {
        let prev = local_enums_spec(enums, fields, (n - 1) as nat);
        match fields[n - 1].accepts {
            FieldType::Enum(x) => if x < enums.len() && enums[x as int].is_local && !prev.contains(x) {
                prev.push(x)
            } else {
                prev
            },
            _ => prev,
        }
    }
}

/// The local layouts that the first `n` fields use, each once, in the order
/// of their first use.
pub open spec fn local_layouts_spec(layouts: Seq<Layout>, fields: Seq<LayoutField>, n: nat) -> Seq<usize>
    decreases n,
{
    if n == 0 || n > fields.len() {
        Seq::empty()
    } else {
        let prev = local_layouts_spec(layouts, fields, (n - 1) as nat);
        match fields[n - 1].accepts {
            FieldType::Layout(x) => if x < layouts.len() && layouts[x as int].is_local && !prev.contains(x) {
                prev.push(x)
            } else {
                prev
            },
            _ => prev,
        }
    }
}

fn contains_index(v: &Vec<usize>, x: usize) -> (r: bool)
    ensures
        r == v@.contains(x),
{
    let mut i: usize = 0;
    while i < v.len()
        invariant
            i <= v@.len(),
            forall|k: int| 0 <= k < i ==> v@[k] != x,
        decreases v@.len() - i,
    {
        if v[i] == x {
            assert(v@[i as int] == x);
            return true;
        }
        i = i + 1;
    }
    false
}

impl RegisterModel {
    /// The local enums that layout `l` uses, each once, in the order of their
    /// first use: the definitions to emit right before the layout.
    pub fn local_enums(&self, l: usize) -> (r: Vec<usize>)
        requires
            l < self.layouts@.len(),
        ensures
            r@ == local_enums_spec(self.enums@, self.layouts@[l as int].fields@, self.layouts@[l as int].fields@.len()),
    {
        let fields = &self.layouts[l].fields;
        let mut out: Vec<usize> = Vec::new();
        let mut k: usize = 0;
        while k < fields.len()
            invariant
                fields == &self.layouts@[l as int].fields,
                k <= fields@.len(),
                out@ == local_enums_spec(self.enums@, fields@, k as nat),
            decreases fields@.len() - k,
        {
            match fields[k].accepts {
                FieldType::Enum(x) => {
                    if x < self.enums.len() && self.enums[x].is_local && !contains_index(&out, x) {
                        out.push(x);
                    }
                },
                _ => {},
            }
            k = k + 1;
        }
        out
    }

    /// The local layouts that layout `l` uses, each once, in the order of
    /// their first use: the definitions to emit right before the layout.
    pub fn local_layouts(&self, l: usize) -> (r: Vec<usize>)
        requires
            l < self.layouts@.len(),
        ensures
            r@ == local_layouts_spec(self.layouts@, self.layouts@[l as int].fields@, self.layouts@[l as int].fields@.len()),
    {
        let fields = &self.layouts[l].fields;
        let mut out: Vec<usize> = Vec::new();
        let mut k: usize = 0;
        while k < fields.len()
            invariant
                fields == &self.layouts@[l as int].fields,
                k <= fields@.len(),
                out@ == local_layouts_spec(self.layouts@, fields@, k as nat),
            decreases fields@.len() - k,
        {
            match fields[k].accepts {
                FieldType::Layout(x) => {
                    if x < self.layouts.len() && self.layouts[x].is_local && !contains_index(&out, x) {
                        out.push(x);
                    }
                },
                _ => {},
            }
            k = k + 1;
        }
        out
    }

    /// Whether the model keeps its invariants: unique enum values, and each
    /// layout valid with respect to the enums and the layouts before it.
    pub open spec fn wf(&self) -> bool {
        &&& forall|e: int| 0 <= e < self.enums@.len() ==> values_unique(#[trigger] self.enums@[e].entries@)
        &&& forall|l: int|
            0 <= l < self.layouts@.len() ==> layout_ok(
                self.enums@,
                self.layouts@,
                l as nat,
                (#[trigger] self.layouts@[l]).fields@,
                self.layouts@[l].width_bytes,
            )
    }

    /// An empty model.
    pub fn new() -> (r: Self)
        ensures
            r.wf(),
            r.enums@.len() == 0,
            r.layouts@.len() == 0,
    {
        RegisterModel { enums: Vec::new(), layouts: Vec::new() }
    }

    /// Adds an enum and returns its index; fails when two entries share a
    /// value, leaving the model unchanged.
    pub fn add_enum(&mut self, e: Enum) -> (r: Result<usize, SchemaError>)
        requires
            old(self).wf(),
        ensures
            final(self).wf(),
            r is Ok <==> values_unique(e.entries@),
            r is Ok ==> r == Ok::<usize, SchemaError>(old(self).enums@.len() as usize)
                && final(self).enums@ == old(self).enums@.push(e)
                && final(self).layouts@ == old(self).layouts@,
            r matches Err(err) ==> *final(self) == *old(self) && (err matches SchemaError::DuplicateEnumValue(a, b)
                && a < b < e.entries@.len() && e.entries@[a as int].value == e.entries@[b as int].value
                && forall|i: int, j: int|
                0 <= i < j < e.entries@.len() && (i < a || (i == a && j < b)) ==> (#[trigger] e.entries@[i]).value
                    != (#[trigger] e.entries@[j]).value),
    {
        let mut a: usize = 0;
        while a < e.entries.len()
            invariant
                *self == *old(self),
                old(self).wf(),
                a <= e.entries@.len(),
                forall|i: int, j: int|
                    0 <= i < a && i < j < e.entries@.len() ==> (#[trigger] e.entries@[i]).value
                        != (#[trigger] e.entries@[j]).value,
            decreases e.entries@.len() - a,
        {
            let mut b: usize = a + 1;
            while b < e.entries.len()
                invariant
                    *self == *old(self),
                    old(self).wf(),
                    a < e.entries@.len(),
                    a + 1 <= b <= e.entries@.len(),
                    forall|i: int, j: int|
                        0 <= i < a && i < j < e.entries@.len() ==> (#[trigger] e.entries@[i]).value
                            != (#[trigger] e.entries@[j]).value,
                    forall|j: int| a < j < b ==> e.entries@[a as int].value != (#[trigger] e.entries@[j]).value,
                decreases e.entries@.len() - b,
            {
                if e.entries[a].value == e.entries[b].value {
                    return Err(SchemaError::DuplicateEnumValue(a, b));
                }
                b = b + 1;
            }
            a = a + 1;
        }
        let idx = self.enums.len();
        self.enums.push(e);
        proof {
            assert forall|l: int| 0 <= l < self.layouts@.len() implies layout_ok(
                self.enums@,
                self.layouts@,
                l as nat,
                (#[trigger] self.layouts@[l]).fields@,
                self.layouts@[l].width_bytes,
            ) by {
                let fields = self.layouts@[l].fields@;
                assert(layout_ok(old(self).enums@, old(self).layouts@, l as nat, fields, self.layouts@[l].width_bytes));
                assert forall|k: int| 0 <= k < fields.len() implies field_fits(
                    self.enums@,
                    self.layouts@,
                    l as nat,
                    #[trigger] fields[k],
                ) by {
                    assert(field_fits(old(self).enums@, old(self).layouts@, l as nat, fields[k]));
                    if let FieldType::Enum(x) = fields[k].accepts {
                        assert(self.enums@[x as int] == old(self).enums@[x as int]);
                    }
                }
            }
            assert forall|x: int| 0 <= x < self.enums@.len() implies values_unique(
                #[trigger] self.enums@[x].entries@,
            ) by {
                if x < old(self).enums@.len() {
                    assert(self.enums@[x] == old(self).enums@[x]);
                }
            }
        }
        Ok(idx)
    }

    /// How field `k` of layout `l` decodes, when it holds an enum.
    pub fn field_strategy(&self, l: usize, k: usize) -> (r: Option<UnpackStrategy>)
        requires
            self.wf(),
            l < self.layouts@.len(),
            k < self.layouts@[l as int].fields@.len(),
        ensures
            ({
                let f = self.layouts@[l as int].fields@[k as int];
                match f.accepts {
                    FieldType::Enum(e) => r == Some(strategy_of(self.enums@[e as int].entries@, f.mask >> lsb_of(f.mask))),
                    _ => r is None,
                }
            }),
    {
        let f = &self.layouts[l].fields[k];
        proof {
            assert(layout_ok(self.enums@, self.layouts@, l as nat, self.layouts@[l as int].fields@, self.layouts@[l as int].width_bytes));
            assert(field_fits(self.enums@, self.layouts@, l as nat, self.layouts@[l as int].fields@[k as int]));
        }
        match f.accepts {
            FieldType::Enum(e) => Some(self.enums[e].unpack_strategy(unpositioned_mask(f.mask))),
            _ => None,
        }
    }

    /// Whether decoding layout `i` from bytes can never fail: no enum field is
    /// fallible and every nested layout can always be decoded.
    pub fn layout_can_always_unpack(&self, i: usize) -> (r: bool)
        requires
            self.wf(),
            i < self.layouts@.len(),
        ensures
            r == layout_always_unpacks(*self, i as nat),
        decreases i,
    {
        let fields = &self.layouts[i].fields;
        proof {
            assert(layout_ok(self.enums@, self.layouts@, i as nat, fields@, self.layouts@[i as int].width_bytes));
        }
        let mut k: usize = 0;
        while k < fields.len()
            invariant
                self.wf(),
                i < self.layouts@.len(),
                fields == &self.layouts@[i as int].fields,
                layout_ok(self.enums@, self.layouts@, i as nat, fields@, self.layouts@[i as int].width_bytes),
                k <= fields@.len(),
                forall|j: int| 0 <= j < k ==> field_always_unpacks(*self, #[trigger] fields@[j], i as nat),
            decreases fields@.len() - k,
        {
            let f = &fields[k];
            proof {
                assert(field_fits(self.enums@, self.layouts@, i as nat, fields@[k as int]));
            }
            let ok = match f.accepts {
                FieldType::Enum(e) => {
                    let s = self.enums[e].unpack_strategy(unpositioned_mask(f.mask));
                    match s {
                        UnpackStrategy::Fallible => false,
                        _ => true,
                    }
                },
                FieldType::Layout(l) => self.layout_can_always_unpack(l),
                _ => true,
            };
            if !ok {
                return false;
            }
            k = k + 1;
        }
        true
    }

    /// Indices, in increasing order, of the enums that some field decodes by
    /// truncation; these need a truncating constructor.
    pub fn enums_requiring_truncating_conv(&self) -> (r: Vec<usize>)
        requires
            self.wf(),
        ensures
            forall|x: usize| r@.contains(x) <==> truncating_use(*self, x),
            forall|a: int, b: int| 0 <= a < b < r@.len() ==> r@[a] < r@[b],
    {
        let mut out: Vec<usize> = Vec::new();
        let mut e: usize = 0;
        while e < self.enums.len()
            invariant
                self.wf(),
                e <= self.enums@.len(),
                forall|x: usize| out@.contains(x) <==> (x < e && truncating_use(*self, x)),
                forall|a: int, b: int| 0 <= a < b < out@.len() ==> out@[a] < out@[b],
                forall|a: int| 0 <= a < out@.len() ==> out@[a] < e,
            decreases self.enums@.len() - e,
        {
            let mut found = false;
            let mut l: usize = 0;
            while l < self.layouts.len() && !found
                invariant
                    self.wf(),
                    e < self.enums@.len(),
                    l <= self.layouts@.len(),
                    found ==> truncating_use(*self, e),
                    !found ==> forall|l2: int, k2: int|
                        0 <= l2 < l && 0 <= k2 < self.layouts@[l2].fields@.len() ==> !((#[trigger] self.layouts@[l2].fields@[k2]).accepts
                            == FieldType::Enum(e) && strategy_of(
                            self.enums@[e as int].entries@,
                            self.layouts@[l2].fields@[k2].mask >> lsb_of(self.layouts@[l2].fields@[k2].mask),
                        ) == UnpackStrategy::Truncating),
                decreases self.layouts@.len() - l,
            {
                let mut k: usize = 0;
                while k < self.layouts[l].fields.len() && !found
                    invariant
                        self.wf(),
                        e < self.enums@.len(),
                        l < self.layouts@.len(),
                        k <= self.layouts@[l as int].fields@.len(),
                        found ==> truncating_use(*self, e),
                        !found ==> forall|l2: int, k2: int|
                            0 <= l2 < l && 0 <= k2 < self.layouts@[l2].fields@.len() ==> !((#[trigger] self.layouts@[l2].fields@[k2]).accepts
                                == FieldType::Enum(e) && strategy_of(
                                self.enums@[e as int].entries@,
                                self.layouts@[l2].fields@[k2].mask >> lsb_of(self.layouts@[l2].fields@[k2].mask),
                            ) == UnpackStrategy::Truncating),
                        !found ==> forall|k2: int|
                            0 <= k2 < k ==> !((#[trigger] self.layouts@[l as int].fields@[k2]).accepts
                                == FieldType::Enum(e) && strategy_of(
                                self.enums@[e as int].entries@,
                                self.layouts@[l as int].fields@[k2].mask >> lsb_of(self.layouts@[l as int].fields@[k2].mask),
                            ) == UnpackStrategy::Truncating),
                    decreases self.layouts@[l as int].fields@.len() - k,
                {
                    let f = &self.layouts[l].fields[k];
                    match f.accepts {
                        FieldType::Enum(x) => {
                            if x == e {
                                let s = self.enums[e].unpack_strategy(unpositioned_mask(f.mask));
                                match s {
                                    UnpackStrategy::Truncating => {
                                        found = true;
                                    },
                                    _ => {},
                                }
                            }
                        },
                        _ => {},
                    }
                    k = k + 1;
                }
                l = l + 1;
            }
            let ghost out0 = out@;
            if found {
                out.push(e);
            }
            proof {
                assert(found ==> out@ == out0.push(e));
                assert(!found ==> out@ == out0);
                assert forall|x: usize| out@.contains(x) <==> (x < e + 1 && truncating_use(*self, x)) by {
                    if x == e && !found && truncating_use(*self, x) {
                        let (l2, k2) = choose|l2: int, k2: int|
                            0 <= l2 < self.layouts@.len() && 0 <= k2 < self.layouts@[l2].fields@.len()
                                && (#[trigger] self.layouts@[l2].fields@[k2]).accepts == FieldType::Enum(x)
                                && x < self.enums@.len() && strategy_of(
                                self.enums@[x as int].entries@,
                                self.layouts@[l2].fields@[k2].mask >> lsb_of(self.layouts@[l2].fields@[k2].mask),
                            ) == UnpackStrategy::Truncating;
                    }
                    if found && x == e {
                        assert(out@[out@.len() - 1] == e);
                    }
                    if out@.contains(x) && x != e {
                        let i = choose|i: int| 0 <= i < out@.len() && out@[i] == x;
                        if found {
                            assert(i < out0.len());
                        }
                        assert(out0[i] == x);
                    }
                    if out0.contains(x) {
                        let i = choose|i: int| 0 <= i < out0.len() && out0[i] == x;
                        assert(out@[i] == x);
                    }
                }
            }
            e = e + 1;
        }
        out
    }

    fn check_field(&self, fields: &Vec<LayoutField>, k: usize) -> (r: Result<(), SchemaError>)
        requires
            self.wf(),
            k < fields@.len(),
        ensures
            r is Ok <==> field_fits(self.enums@, self.layouts@, self.layouts@.len(), fields@[k as int]),
            r matches Err(err) ==> error_holds(self.enums@, self.layouts@, fields@, None, err),
            r == (match field_error(self.enums@, self.layouts@, self.layouts@.len(), fields@[k as int], k) {
                Some(e) => Err(e),
                None => Ok(()),
            }),
    {
        let f = &fields[k];
        if f.mask == 0 {
            return Err(SchemaError::EmptyField(k));
        }
        match f.accepts {
            FieldType::Fixed(v) => {
                if v & !unpositioned_mask(f.mask) != 0 {
                    return Err(SchemaError::FieldTooNarrow(k));
                }
            },
            FieldType::Enum(e) => {
                if e >= self.enums.len() {
                    return Err(SchemaError::UndefinedEnum(k));
                }
                if self.enums[e].min_bitwidth() > mask_width(f.mask) {
                    return Err(SchemaError::FieldTooNarrow(k));
                }
            },
            FieldType::Layout(l) => {
                if l >= self.layouts.len() {
                    return Err(SchemaError::UndefinedLayout(k));
                }
                let sub = &self.layouts[l];
                proof {
                    assert(layout_ok(self.enums@, self.layouts@, l as nat, sub.fields@, sub.width_bytes));
                }
                if (sub.occupied_mask() << lsb_pos(f.mask)) & !f.mask != 0 || 8 * sub.width_bytes
                    > mask_width(f.mask) {
                    return Err(SchemaError::FieldTooNarrow(k));
                }
            },
            _ => {},
        }
        Ok(())
    }

    /// Adds a layout with these fields and returns its index. The width is
    /// `width_bytes` when given, else the fewest bytes that hold the fields.
    /// Fails, leaving the model unchanged, when a field occupies no bit,
    /// refers to a missing enum or to a layout not already in the model, is
    /// too narrow for its type, when two fields overlap, or when the width is
    /// above sixteen bytes or below what the fields need.
    pub fn add_layout(
        &mut self,
        name: String,
        doc: Option<String>,
        is_local: bool,
        fields: Vec<LayoutField>,
        width_bytes: Option<TypeBitwidth>,
    ) -> (r: Result<usize, SchemaError>)
        requires
            old(self).wf(),
        ensures
            final(self).wf(),
            r is Ok <==> layout_ok(
                old(self).enums@,
                old(self).layouts@,
                old(self).layouts@.len(),
                fields@,
                width_of(fields@, width_bytes),
            ),
            r is Ok ==> r == Ok::<usize, SchemaError>(old(self).layouts@.len() as usize)
                && final(self).enums@ == old(self).enums@ && final(self).layouts@ == old(
                self,
            ).layouts@.push(
                (Layout { name, doc, is_local, width_bytes: width_of(fields@, width_bytes), fields }),
            ),
            r matches Err(err) ==> *final(self) == *old(self) && error_holds(
                old(self).enums@,
                old(self).layouts@,
                fields@,
                width_bytes,
                err,
            ),
            r == (match layout_error(old(self).enums@, old(self).layouts@, fields@, width_bytes) {
                Some(e) => Err(e),
                None => Ok(old(self).layouts@.len() as usize),
            }),
    {
        let mut k: usize = 0;
        while k < fields.len()
            invariant
                *self == *old(self),
                old(self).wf(),
                k <= fields@.len(),
                forall|i: int|
                    0 <= i < k ==> field_fits(
                        self.enums@,
                        self.layouts@,
                        self.layouts@.len(),
                        #[trigger] fields@[i],
                    ),
                forall|a: int, b: int|
                    0 <= a < b < k ==> (#[trigger] fields@[a]).mask & (#[trigger] fields@[b]).mask == 0,
                fields_error(self.enums@, self.layouts@, self.layouts@.len(), fields@, k as nat) is None,
            decreases fields@.len() - k,
        {
            match self.check_field(&fields, k) {
                Err(err) => {
                    proof {
                        lemma_fields_error_sticks(self.enums@, self.layouts@, self.layouts@.len(), fields@, (k + 1) as nat, fields@.len());
                    }
                    return Err(err);
                },
                Ok(()) => {},
            }
            let mut j: usize = 0;
            while j < k
                invariant
                    *self == *old(self),
                    old(self).wf(),
                    j <= k < fields@.len(),
                    forall|a: int, b: int|
                        0 <= a < b < k ==> (#[trigger] fields@[a]).mask & (#[trigger] fields@[b]).mask
                            == 0,
                    forall|a: int| 0 <= a < j ==> (#[trigger] fields@[a]).mask & fields@[k as int].mask == 0,
                    fields_error(self.enums@, self.layouts@, self.layouts@.len(), fields@, k as nat) is None,
                    field_error(self.enums@, self.layouts@, self.layouts@.len(), fields@[k as int], k) is None,
                    overlap_error(fields@, k as int, j as nat) is None,
                decreases k - j,
            {
                if fields[j].mask & fields[k].mask != 0 {
                    proof {
                        lemma_overlap_error_sticks(fields@, k as int, (j + 1) as nat, k as nat);
                        lemma_fields_error_sticks(self.enums@, self.layouts@, self.layouts@.len(), fields@, (k + 1) as nat, fields@.len());
                    }
                    return Err(SchemaError::Overlap(j, k));
                }
                j = j + 1;
            }
            k = k + 1;
        }
        let needed = bytes_needed(fields_occupied_mask(&fields));
        let width = match width_bytes {
            Some(w) => {
                if w > 16 {
                    return Err(SchemaError::TooWide);
                }
                if w < needed {
                    return Err(SchemaError::WidthTooSmall);
                }
                w
            },
            None => needed,
        };
        let idx = self.layouts.len();
        let ghost new_fields = fields@;
        self.layouts.push(Layout { name, doc, is_local, width_bytes: width, fields });
        proof {
            let n = old(self).layouts@.len();
            assert forall|l: int| 0 <= l < self.layouts@.len() implies layout_ok(
                self.enums@,
                self.layouts@,
                l as nat,
                (#[trigger] self.layouts@[l]).fields@,
                self.layouts@[l].width_bytes,
            ) by {
                let fs = self.layouts@[l].fields@;
                if l < n {
                    assert(self.layouts@[l] == old(self).layouts@[l]);
                    assert(layout_ok(old(self).enums@, old(self).layouts@, l as nat, fs, self.layouts@[l].width_bytes));
                }
                assert forall|k: int| 0 <= k < fs.len() implies field_fits(
                    self.enums@,
                    self.layouts@,
                    l as nat,
                    #[trigger] fs[k],
                ) by {
                    assert(field_fits(old(self).enums@, old(self).layouts@, l as nat, fs[k]));
                    if let FieldType::Layout(x) = fs[k].accepts {
                        assert(self.layouts@[x as int] == old(self).layouts@[x as int]);
                    }
                }
            }
        }
        Ok(idx)
    }
}

} // verus!
