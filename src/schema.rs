//! Record shapes as declared, their capability settings, and the validation
//! of their tags.
use vstd::prelude::*;
use crate::wire::{FieldValue, WireField, Field, fields_view};
use crate::object::Variant;
use crate::ser::push_bytes;

verus! {

/// The capabilities requested for a shape. Tracking state implies
/// serializing, merging and deserializing; deserializing implies merging.
#[derive(Debug, Clone, Copy, PartialEq, Eq, Structural)]
pub struct DeriveSetting {
    pub serialize: bool,
    pub deserialize: bool,
    pub merge: bool,
    pub state: bool,
    pub no_cached_size: bool,
    pub own_crate: bool,
}

impl DeriveSetting {
    /// The setting for the requested flags, closed under the implications.
    pub fn from_flags(
        serialize: bool,
        merge: bool,
        deserialize: bool,
        state: bool,
        no_cached_size: bool,
        own_crate: bool,
    ) -> (r: DeriveSetting)
        ensures
            r.serialize == (serialize || state),
            r.merge == (merge || deserialize || state),
            r.deserialize == (deserialize || state),
            r.state == state,
            r.no_cached_size == no_cached_size,
            r.own_crate == own_crate,
    {
        DeriveSetting {
            serialize: serialize || state,
            merge: merge || deserialize || state,
            deserialize: deserialize || state,
            state,
            no_cached_size,
            own_crate,
        }
    }

    /// Whether constructors are generated.
    pub fn ctors(&self) -> (r: bool)
        ensures
            r == self.deserialize,
    {
        self.deserialize
    }

    /// Whether field setters are generated.
    pub fn setters(&self) -> (r: bool)
        ensures
            r == (self.state || !self.no_cached_size),
    {
        self.state || !self.no_cached_size
    }

    /// Whether a default value is generated.
    pub fn default(&self) -> (r: bool)
        ensures
            r == self.deserialize,
    {
        self.deserialize
    }

    /// Whether the shape embeds a runtime.
    pub fn runtimed(&self) -> (r: bool)
        ensures
            r == self.state,
    {
        self.state
    }
}

/// One declared field: an optional explicit tag, the value it starts with,
/// and whether it is the record's embedded runtime (which has no tag).
#[derive(Debug, Clone, PartialEq, Eq)]
pub struct FieldDecl {
    pub tag: Option<u16>,
    pub default: FieldValue,
    pub runtime: bool,
}

/// A fault in a declared shape.
#[derive(Debug, Clone, Copy, PartialEq, Eq, Structural)]
pub enum SchemaError {
    /// The field at `index` repeats a tag of an earlier field.
    DuplicateTag { tag: u16, index: usize },
    /// The field at `index` uses a reserved tag.
    ReservedTag { tag: u16, index: usize },
    /// A tagged union declares no variant.
    NoVariants,
    /// The union variant at `index` repeats the tag of an earlier variant.
    DuplicateVariant { tag: u16, index: usize },
    /// The union variant at `index` uses a reserved tag.
    ReservedVariant { tag: u16, index: usize },
    /// A stateful record declares no runtime field.
    MissingRuntime,
    /// A record declares more than one runtime field.
    MultipleRuntimes,
}

/// The tag of field `i`: the explicit one, or its position.
pub open spec fn assigned_tag(d: Seq<FieldDecl>, i: int) -> int {
    match d[i].tag {
        Some(t) => t as int,
        None => i,
    }
}

/// Some data field before `i` has the tag of field `i`.
pub open spec fn dup_before(d: Seq<FieldDecl>, i: int) -> bool {
    exists|j: int| 0 <= j < i && !d[j].runtime && assigned_tag(d, j) == assigned_tag(d, i)
}

/// The faults of field `i`: a reserved tag, then a repeated tag.
pub open spec fn field_errors(d: Seq<FieldDecl>, reserved: Seq<u16>, i: int) -> Seq<SchemaError> {
    if d[i].runtime {
        Seq::empty()
    } else {
        let t = assigned_tag(d, i) as u16;
        (if reserved.contains(t) {
            seq![SchemaError::ReservedTag { tag: t, index: i as usize }]
        } else {
            Seq::empty()
        }) + (if dup_before(d, i) {
            seq![SchemaError::DuplicateTag { tag: t, index: i as usize }]
        } else {
            Seq::empty()
        })
    }
}

/// The faults of the first `n` fields, in declaration order.
pub open spec fn errors_upto(d: Seq<FieldDecl>, reserved: Seq<u16>, n: int) -> Seq<SchemaError>
    decreases n,
{
    if n <= 0 {
        Seq::empty()
    } else {
        errors_upto(d, reserved, n - 1) + field_errors(d, reserved, n - 1)
    }
}

/// Number of runtime fields among the first `n`.
pub open spec fn runtime_count(d: Seq<FieldDecl>, n: int) -> nat
    decreases n,
{
    if n <= 0 {
        0
    } else {
        runtime_count(d, n - 1) + if d[n - 1].runtime {
            1nat
        } else {
            0nat
        }
    }
}

/// Every fault of a record shape, in the order they are reported.
pub open spec fn record_errors(d: Seq<FieldDecl>, reserved: Seq<u16>, stateful: bool) -> Seq<SchemaError> {
    let c = runtime_count(d, d.len() as int);
    errors_upto(d, reserved, d.len() as int) + (if stateful && c == 0 {
        seq![SchemaError::MissingRuntime]
    } else {
        Seq::empty()
    }) + (if c > 1 {
        seq![SchemaError::MultipleRuntimes]
    } else {
        Seq::empty()
    })
}

/// The fields of a fresh record of the shape: each data field of the first
/// `n`, with its tag and default value.
pub open spec fn instance(d: Seq<FieldDecl>, n: int) -> Seq<WireField>
    decreases n,
{
    if n <= 0 {
        Seq::empty()
    } else {
        instance(d, n - 1) + if d[n - 1].runtime {
            Seq::<WireField>::empty()
        } else {
            seq![WireField { tag: assigned_tag(d, n - 1) as nat, value: d[n - 1].default@ }]
        }
    }
}

/// A copy of a field value.
pub fn copy_value(v: &FieldValue) -> (r: FieldValue)
    ensures
        r@ == v@,
{
    match v {
        FieldValue::Varint(x) => FieldValue::Varint(*x),
        FieldValue::Sized(b) => {
            let mut c: Vec<u8> = Vec::new();
            push_bytes(b, &mut c);
            assert(c@ =~= b@);
            FieldValue::Sized(c)
        },
    }
}

fn contains_tag(reserved: &Vec<u16>, t: u16) -> (r: bool)
    ensures
        r == reserved@.contains(t),
{
    let mut i: usize = 0;
    while i < reserved.len()
        invariant
            0 <= i <= reserved@.len(),
            forall|j: int| 0 <= j < i ==> reserved@[j] != t,
        decreases reserved@.len() - i,
    {
        if reserved[i] == t {
            return true;
        }
        i = i + 1;
    }
    false
}

fn tag_of(decls: &Vec<FieldDecl>, i: usize) -> (r: u16)
    requires
        i < decls@.len() <= 65536,
    ensures
        r as int == assigned_tag(decls@, i as int),
{
    match decls[i].tag {
        Some(t) => t,
        None => i as u16,
    }
}

/// Checks a record shape's tags and runtime fields, collecting every fault.
/// On success, returns the fields of a fresh record in declaration order.
pub fn validate_record(decls: &Vec<FieldDecl>, reserved: &Vec<u16>, stateful: bool) -> (r: Result<
    Vec<Field>,
    Vec<SchemaError>,
>)
    requires
        decls@.len() <= 65536,
    ensures
        match r {
            Ok(fs) => record_errors(decls@, reserved@, stateful).len() == 0 && fields_view(fs@)
                == instance(decls@, decls@.len() as int),
            Err(es) => es@ == record_errors(decls@, reserved@, stateful) && es@.len() > 0,
        },
{
    let mut errors: Vec<SchemaError> = Vec::new();
    let mut fields: Vec<Field> = Vec::new();
    let mut runtimes: usize = 0;
    let mut i: usize = 0;
    while i < decls.len()
        invariant
            0 <= i <= decls@.len() <= 65536,
            errors@ == errors_upto(decls@, reserved@, i as int),
            fields_view(fields@) == instance(decls@, i as int),
            runtimes as nat == runtime_count(decls@, i as int),
            runtimes <= i,
        decreases decls@.len() - i,
    {
        let ghost e0 = errors@;
        if decls[i].runtime {
            runtimes = runtimes + 1;
            assert(instance(decls@, i + 1) =~= instance(decls@, i as int));
            assert(errors_upto(decls@, reserved@, i + 1) =~= errors_upto(decls@, reserved@, i as int));
        } else {
            let t = tag_of(decls, i);
            if contains_tag(reserved, t) {
                errors.push(SchemaError::ReservedTag { tag: t, index: i });
            }
            let mut j: usize = 0;
            let mut dup = false;
            while j < i && !dup
                invariant
                    0 <= j <= i < decls@.len() <= 65536,
                    t as int == assigned_tag(decls@, i as int),
                    dup ==> dup_before(decls@, i as int),
                    !dup ==> forall|k: int|
                        0 <= k < j ==> decls@[k].runtime || assigned_tag(decls@, k) != t,
                decreases i - j,
            {
                if !decls[j].runtime && tag_of(decls, j) == t {
                    dup = true;
                }
                j = j + 1;
            }
            if dup {
                errors.push(SchemaError::DuplicateTag { tag: t, index: i });
            }
            proof {
                if !dup {
                    assert(!dup_before(decls@, i as int));
                }
                assert(errors@ =~= e0 + field_errors(decls@, reserved@, i as int));
            }
            let v = copy_value(&decls[i].default);
            let ghost f0 = fields@;
            fields.push(Field { tag: t, value: v });
            assert(fields_view(fields@) =~= fields_view(f0).push(WireField { tag: t as nat, value: v@ }));
            assert(fields_view(fields@) =~= instance(decls@, i + 1));
        }
        i = i + 1;
    }
    if stateful && runtimes == 0 {
        errors.push(SchemaError::MissingRuntime);
    }
    if runtimes > 1 {
        errors.push(SchemaError::MultipleRuntimes);
    }
    assert(errors@ =~= record_errors(decls@, reserved@, stateful));
    if errors.len() == 0 {
        Ok(fields)
    } else {
        Err(errors)
    }
}

proof fn lemma_contains_concat(x: Seq<SchemaError>, y: Seq<SchemaError>, e: SchemaError)
    ensures
        x.contains(e) ==> (x + y).contains(e),
        y.contains(e) ==> (x + y).contains(e),
{
    if x.contains(e) {
        let k = choose|k: int| 0 <= k < x.len() && x[k] == e;
        assert((x + y)[k] == e);
    }
    if y.contains(e) {
        let k = choose|k: int| 0 <= k < y.len() && y[k] == e;
        assert((x + y)[x.len() + k] == e);
    }
}

proof fn lemma_errors_upto_contains(d: Seq<FieldDecl>, reserved: Seq<u16>, n: int, i: int, e: SchemaError)
    requires
        0 <= i < n,
        field_errors(d, reserved, i).contains(e),
    ensures
        errors_upto(d, reserved, n).contains(e),
    decreases n,
{
    lemma_contains_concat(errors_upto(d, reserved, n - 1), field_errors(d, reserved, n - 1), e);
    if i < n - 1 {
        lemma_errors_upto_contains(d, reserved, n - 1, i, e);
    }
}

proof fn lemma_reported(d: Seq<FieldDecl>, reserved: Seq<u16>, stateful: bool, i: int, e: SchemaError)
    requires
        0 <= i < d.len(),
        field_errors(d, reserved, i).contains(e),
    ensures
        record_errors(d, reserved, stateful).contains(e),
{
    let c = runtime_count(d, d.len() as int);
    let a = errors_upto(d, reserved, d.len() as int);
    let b = if stateful && c == 0 {
        seq![SchemaError::MissingRuntime]
    } else {
        Seq::empty()
    };
    let m = if c > 1 {
        seq![SchemaError::MultipleRuntimes]
    } else {
        Seq::empty()
    };
    lemma_errors_upto_contains(d, reserved, d.len() as int, i, e);
    lemma_contains_concat(a, b, e);
    lemma_contains_concat(a + b, m, e);
}

/// Tag validation: two data fields with the same explicit tag are reported
/// as a duplicate at the later one; a data field on a reserved tag is
/// reported; and in a shape without faults no two data fields share a tag,
/// so a positional tag never collides with an explicit one.
pub proof fn lemma_tag_validation(d: Seq<FieldDecl>, reserved: Seq<u16>, stateful: bool)
    requires
        d.len() <= 65536,
    ensures
        forall|i: int, j: int|
            0 <= i < j < d.len() && !d[i].runtime && !d[j].runtime && d[i].tag is Some && d[i].tag
                == d[j].tag ==> record_errors(d, reserved, stateful).contains(
                SchemaError::DuplicateTag { tag: d[j].tag.unwrap(), index: j as usize },
            ),
        forall|i: int|
            0 <= i < d.len() && !d[i].runtime && reserved.contains(assigned_tag(d, i) as u16)
                ==> record_errors(d, reserved, stateful).contains(
                SchemaError::ReservedTag { tag: assigned_tag(d, i) as u16, index: i as usize },
            ),
        record_errors(d, reserved, stateful).len() == 0 ==> forall|i: int, j: int|
            0 <= i < j < d.len() && !d[i].runtime && !d[j].runtime ==> assigned_tag(d, i)
                != assigned_tag(d, j),
{
    assert forall|i: int, j: int|
        0 <= i < j < d.len() && !d[i].runtime && !d[j].runtime && assigned_tag(d, i) == assigned_tag(
            d,
            j,
        ) implies record_errors(d, reserved, stateful).contains(
        SchemaError::DuplicateTag { tag: assigned_tag(d, j) as u16, index: j as usize },
    ) by {
        assert(dup_before(d, j));
        let e = SchemaError::DuplicateTag { tag: assigned_tag(d, j) as u16, index: j as usize };
        let t = assigned_tag(d, j) as u16;
        let r = if reserved.contains(t) {
            seq![SchemaError::ReservedTag { tag: t, index: j as usize }]
        } else {
            Seq::empty()
        };
        assert(field_errors(d, reserved, j) == r + seq![e]);
        assert((r + seq![e])[r.len() as int] == e);
        lemma_reported(d, reserved, stateful, j, e);
    }
    assert forall|i: int|
        0 <= i < d.len() && !d[i].runtime && reserved.contains(
            assigned_tag(d, i) as u16,
        ) implies record_errors(d, reserved, stateful).contains(
        SchemaError::ReservedTag { tag: assigned_tag(d, i) as u16, index: i as usize },
    ) by {
        let e = SchemaError::ReservedTag { tag: assigned_tag(d, i) as u16, index: i as usize };
        assert(field_errors(d, reserved, i)[0] == e);
        lemma_reported(d, reserved, stateful, i, e);
    }
    assert forall|i: int, j: int|
        0 <= i < j < d.len() && !d[i].runtime && !d[j].runtime && d[i].tag is Some && d[i].tag
            == d[j].tag implies record_errors(d, reserved, stateful).contains(
        SchemaError::DuplicateTag { tag: d[j].tag.unwrap(), index: j as usize },
    ) by {
        assert(assigned_tag(d, i) == assigned_tag(d, j));
    }
}

/// One declared variant of a tagged union: an optional explicit tag, and
/// its fields with the tags they reserve.
#[derive(Debug, Clone, PartialEq, Eq)]
pub struct VariantDecl {
    pub tag: Option<u16>,
    pub fields: Vec<FieldDecl>,
    pub reserved: Vec<u16>,
}

/// The tag of variant `i`: the explicit one, or its position.
pub open spec fn variant_tag(vs: Seq<VariantDecl>, i: int) -> int {
    match vs[i].tag {
        Some(t) => t as int,
        None => i,
    }
}

/// The faults of variant `i`: a reserved tag, a repeated tag, then the
/// faults of its fields.
pub open spec fn variant_errors(vs: Seq<VariantDecl>, reserved: Seq<u16>, stateful: bool, i: int) -> Seq<
    SchemaError,
> {
    let t = variant_tag(vs, i) as u16;
    (if reserved.contains(t) {
        seq![SchemaError::ReservedVariant { tag: t, index: i as usize }]
    } else {
        Seq::empty()
    }) + (if exists|j: int| 0 <= j < i && variant_tag(vs, j) == variant_tag(vs, i) {
        seq![SchemaError::DuplicateVariant { tag: t, index: i as usize }]
    } else {
        Seq::empty()
    }) + record_errors(vs[i].fields@, vs[i].reserved@, stateful)
}

pub open spec fn variant_errors_upto(vs: Seq<VariantDecl>, reserved: Seq<u16>, stateful: bool, n: int) -> Seq<
    SchemaError,
>
    decreases n,
{
    if n <= 0 {
        Seq::empty()
    } else {
        variant_errors_upto(vs, reserved, stateful, n - 1) + variant_errors(vs, reserved, stateful, n - 1)
    }
}

/// Every fault of a tagged union, in the order they are reported.
pub open spec fn union_errors(vs: Seq<VariantDecl>, reserved: Seq<u16>, stateful: bool) -> Seq<SchemaError> {
    if vs.len() == 0 {
        seq![SchemaError::NoVariants]
    } else {
        variant_errors_upto(vs, reserved, stateful, vs.len() as int)
    }
}

/// Checks a tagged union: it must have a variant; variant tags must be
/// distinct and not reserved; each variant's fields follow the record rules
/// in their own tag space. Every fault is collected. On success, returns
/// each variant's tag with the fields of a fresh value of it.
pub fn validate_union(variants: &Vec<VariantDecl>, reserved: &Vec<u16>, stateful: bool) -> (r: Result<
    Vec<Variant>,
    Vec<SchemaError>,
>)
    requires
        variants@.len() <= 65536,
        forall|i: int| 0 <= i < variants@.len() ==> (#[trigger] variants@[i]).fields@.len() <= 65536,
    ensures
        match r {
            Ok(shapes) => union_errors(variants@, reserved@, stateful).len() == 0 && shapes@.len()
                == variants@.len() && forall|i: int|
                0 <= i < shapes@.len() ==> (#[trigger] shapes@[i]).tag as int == variant_tag(variants@, i)
                    && fields_view(shapes@[i].fields@) == instance(
                    variants@[i].fields@,
                    variants@[i].fields@.len() as int,
                ),
            Err(es) => es@ == union_errors(variants@, reserved@, stateful) && es@.len() > 0,
        },
{
    if variants.len() == 0 {
        return Err(vec![SchemaError::NoVariants]);
    }
    let mut errors: Vec<SchemaError> = Vec::new();
    let mut shapes: Vec<Variant> = Vec::new();
    let mut i: usize = 0;
    while i < variants.len()
        invariant
            0 <= i <= variants@.len() <= 65536,
            forall|k: int| 0 <= k < variants@.len() ==> (#[trigger] variants@[k]).fields@.len() <= 65536,
            errors@ == variant_errors_upto(variants@, reserved@, stateful, i as int),
            errors@.len() == 0 ==> shapes@.len() == i && forall|k: int|
                0 <= k < i ==> (#[trigger] shapes@[k]).tag as int == variant_tag(variants@, k)
                    && fields_view(shapes@[k].fields@) == instance(
                    variants@[k].fields@,
                    variants@[k].fields@.len() as int,
                ),
        decreases variants@.len() - i,
    {
        let ghost e0 = errors@;
        let t: u16 = match variants[i].tag {
            Some(t) => t,
            None => i as u16,
        };
        let mut bad = Vec::new();
        if contains_tag(reserved, t) {
            bad.push(SchemaError::ReservedVariant { tag: t, index: i });
        }
        let mut j: usize = 0;
        let mut dup = false;
        while j < i && !dup
            invariant
                0 <= j <= i < variants@.len() <= 65536,
                t as int == variant_tag(variants@, i as int),
                dup ==> exists|k: int| 0 <= k < i && variant_tag(variants@, k) == variant_tag(variants@, i as int),
                !dup ==> forall|k: int| 0 <= k < j ==> variant_tag(variants@, k) != t,
            decreases i - j,
        {
            let tj: u16 = match variants[j].tag {
                Some(x) => x,
                None => j as u16,
            };
            if tj == t {
                dup = true;
                assert(variant_tag(variants@, j as int) == variant_tag(variants@, i as int));
            }
            j = j + 1;
        }
        if dup {
            bad.push(SchemaError::DuplicateVariant { tag: t, index: i });
        }
        assert(variants@[i as int].fields@.len() <= 65536);
        match validate_record(&variants[i].fields, &variants[i].reserved, stateful) {
            Ok(fields) => {
                if bad.len() == 0 && errors.len() == 0 {
                    shapes.push(Variant { tag: t, fields });
                }
            },
            Err(mut es) => {
                bad.append(&mut es);
            },
        }
        assert(bad@ =~= variant_errors(variants@, reserved@, stateful, i as int));
        errors.append(&mut bad);
        assert(errors@ =~= variant_errors_upto(variants@, reserved@, stateful, i + 1));
        i = i + 1;
    }
    if errors.len() == 0 {
        Ok(shapes)
    } else {
        Err(errors)
    }
}

/// A tagged union that passed validation: the setting it was declared
/// with, and a fresh value of each of its variants in declaration order.
#[derive(Debug, PartialEq, Eq)]
pub struct Enum {
    pub setting: DeriveSetting,
    pub variants: Vec<Variant>,
}

impl Enum {
    /// Validates a tagged union under `setting`; a union with state tracking
    /// needs a runtime field in every variant.
    pub fn parse(setting: &DeriveSetting, variants: &Vec<VariantDecl>, reserved: &Vec<u16>) -> (r: Result<
        Enum,
        Vec<SchemaError>,
    >)
        requires
            variants@.len() <= 65536,
            forall|i: int| 0 <= i < variants@.len() ==> (#[trigger] variants@[i]).fields@.len() <= 65536,
        ensures
            match r {
                Ok(e) => e.setting == *setting && union_errors(variants@, reserved@, setting.state).len()
                    == 0 && e.variants@.len() == variants@.len() && forall|i: int|
                    0 <= i < e.variants@.len() ==> (#[trigger] e.variants@[i]).tag as int
                        == variant_tag(variants@, i) && fields_view(e.variants@[i].fields@)
                        == instance(variants@[i].fields@, variants@[i].fields@.len() as int),
                Err(es) => es@ == union_errors(variants@, reserved@, setting.state) && es@.len() > 0,
            },
    {
        match validate_union(variants, reserved, setting.runtimed()) {
            Ok(vs) => Ok(Enum { setting: *setting, variants: vs }),
            Err(es) => Err(es),
        }
    }
}

} // verus!
