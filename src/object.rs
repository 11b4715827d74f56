//! Records driven by their shape: a stateful record with logged, cache-
//! invalidating setters, and tagged unions framed by their variant's tag.
use vstd::prelude::*;
use crate::varint::{DecodeError, varint_enc, read_u64, encode_varint, varint_size, decode_varint, lemma_varint_round_trip};
use crate::wire::{
    FieldValue, WireField, Field, value_wire_type, fields_view, payload_enc, fields_enc,
    parse_from, encode_fields, fields_size,
};
use crate::decode::{apply_all, merge_from, same_shape, tags_unique, fields_ok, lemma_round_trip, lemma_parse_fields_enc};
use crate::runtime::{Graph, Runtime, Entry, EntryV, Op, OpV};
use crate::schema::copy_value;
use crate::ser::push_bytes;

verus! {

/// A stateful record: its runtime handle and its data fields.
#[derive(Debug, PartialEq, Eq)]
pub struct Object {
    pub runtime: Runtime,
    pub fields: Vec<Field>,
}

/// A copy of a record's fields.
pub fn copy_fields(fs: &Vec<Field>) -> (r: Vec<Field>)
    ensures
        fields_view(r@) == fields_view(fs@),
{
    let mut r: Vec<Field> = Vec::new();
    let mut i: usize = 0;
    while i < fs.len()
        invariant
            0 <= i <= fs@.len(),
            fields_view(r@) == fields_view(fs@.subrange(0, i as int)),
        decreases fs@.len() - i,
    {
        let v = copy_value(&fs[i].value);
        let ghost r0 = r@;
        r.push(Field { tag: fs[i].tag, value: v });
        assert(fields_view(r@) =~= fields_view(r0).push(fs@[i as int]@));
        assert(fields_view(fs@.subrange(0, i + 1)) =~= fields_view(fs@.subrange(0, i as int)).push(
            fs@[i as int]@,
        ));
        i = i + 1;
    }
    assert(fs@.subrange(0, fs@.len() as int) =~= fs@);
    r
}

impl Object {
    pub fn new(runtime: Runtime, fields: Vec<Field>) -> (r: Object)
        ensures
            r.runtime == runtime,
            r.fields == fields,
    {
        Object { runtime, fields }
    }

    /// The record's encoding: its fields framed in declaration order.
    pub open spec fn encoding(&self) -> Seq<u8> {
        fields_enc(fields_view(self.fields@))
    }

    /// The cached size at the record's address if set; otherwise the exact
    /// length of its encoding, which is then cached.
    pub fn size(&self, g: &mut Graph) -> (r: u32)
        requires
            self.runtime.wf_in(old(g)),
            self.encoding().len() <= u32::MAX,
        ensures
            final(g).log == old(g).log,
            final(g).nodes@.len() == old(g).nodes@.len(),
            forall|i: int|
                0 <= i < old(g).nodes@.len() && i != self.runtime.node ==> final(g).nodes@[i] == old(
                    g,
                ).nodes@[i],
            final(g).same_link(old(g), self.runtime.node as int),
            final(g).cached(self.runtime.node as int) == Some(r),
            old(g).cached(self.runtime.node as int) is None ==> r as nat == self.encoding().len(),
            old(g).cached(self.runtime.node as int) matches Some(c) ==> r == c,
    {
        let fs = &self.fields;
        let compute = (|| -> (r: u32)
            requires
                fields_enc(fields_view(fs@)).len() <= u32::MAX,
            ensures
                r as nat == fields_enc(fields_view(fs@)).len(),
            { fields_size(fs) });
        self.runtime.get_or_set_cached_size_from(g, compute)
    }

    /// Appends the record's encoding.
    pub fn serialize(&self, out: &mut Vec<u8>)
        ensures
            final(out)@ == old(out)@ + self.encoding(),
    {
        encode_fields(&self.fields, out);
    }

    /// Sets field `index` to `value`, logs the update at the field's address
    /// with the value's encoding, and clears the cached sizes from the
    /// record's address up to the root.
    pub fn set_field(&mut self, g: &mut Graph, index: usize, value: FieldValue)
        requires
            old(g).wf(),
            old(self).runtime.wf_in(old(g)),
            index < old(self).fields@.len(),
            value_wire_type(value@) == value_wire_type(old(self).fields@[index as int].value@),
        ensures
            final(self).runtime == old(self).runtime,
            fields_view(final(self).fields@) == fields_view(old(self).fields@).update(
                index as int,
                WireField { tag: old(self).fields@[index as int].tag as nat, value: value@ },
            ),
            final(g).wf(),
            final(g).log_view() == old(g).log_view().push(
                EntryV {
                    path: old(self).runtime.path@.push(old(self).fields@[index as int].tag),
                    op: OpV::Update(payload_enc(value@)),
                },
            ),
            final(g).nodes@.len() == old(g).nodes@.len(),
            forall|i: int|
                0 <= i < old(g).nodes@.len() ==> #[trigger] final(g).cleared_at(
                    old(g),
                    old(self).runtime.node as int,
                    i,
                ),
    {
        let tag = self.fields[index].tag;
        let mut payload: Vec<u8> = Vec::new();
        match &value {
            FieldValue::Varint(x) => encode_varint(*x, &mut payload),
            FieldValue::Sized(b) => push_bytes(b, &mut payload),
        }
        let ghost f0 = self.fields@;
        self.fields.set(index, Field { tag, value });
        assert(fields_view(self.fields@) =~= fields_view(f0).update(
            index as int,
            WireField { tag: tag as nat, value: value@ },
        ));
        let mut path: Vec<u16> = Vec::new();
        let mut i: usize = 0;
        while i < self.runtime.path.len()
            invariant
                0 <= i <= self.runtime.path@.len(),
                path@ == self.runtime.path@.subrange(0, i as int),
            decreases self.runtime.path@.len() - i,
        {
            path.push(self.runtime.path[i]);
            assert(self.runtime.path@.subrange(0, i + 1) =~= self.runtime.path@.subrange(
                0,
                i as int,
            ).push(self.runtime.path@[i as int]));
            i = i + 1;
        }
        path.push(tag);
        assert(self.runtime.path@.subrange(0, self.runtime.path@.len() as int) =~= self.runtime.path@);
        assert(payload@ =~= payload_enc(value@));
        self.runtime.append_entry(g, Entry { path, op: Op::Update(payload) });
        let ghost g1 = *g;
        proof {
            assert(g1.wf()) by {
                assert forall|k: int| 0 <= k < g1.nodes@.len() implies match (#[trigger] g1.nodes@[k]).parent {
                    Some(p) => (p as int) < k,
                    None => true,
                } by {
                    assert(g1.nodes@[k] == old(g).nodes@[k]);
                }
            }
            assert forall|a: int| 0 <= a < g1.nodes@.len() implies #[trigger] g1.same_link(old(g), a) by {}
            crate::runtime::lemma_extends_keeps(old(g), &g1, self.runtime.node as int);
        }
        self.runtime.clear_cached_size(g);
        proof {
            assert forall|i: int| 0 <= i < old(g).nodes@.len() implies #[trigger] g.cleared_at(
                old(g),
                old(self).runtime.node as int,
                i,
            ) by {
                assert(g.cleared_at(&g1, self.runtime.node as int, i));
                assert(g1.nodes@[i] == old(g).nodes@[i]);
            }
        }
    }

    /// Decodes `bytes` into the record's fields (unknown tags skipped) and
    /// clears the cached sizes from the record's address up to the root.
    /// On failure the record may hold part of the input and is to be
    /// discarded.
    pub fn merge(&mut self, g: &mut Graph, bytes: &Vec<u8>) -> (r: Result<(), DecodeError>)
        requires
            old(g).wf(),
            old(self).runtime.wf_in(old(g)),
        ensures
            final(self).runtime == old(self).runtime,
            match parse_from(bytes@, 0) {
                Ok(fs) => r is Ok && fields_view(final(self).fields@) == apply_all(
                    fields_view(old(self).fields@),
                    fs,
                ),
                Err(e) => r == Err::<(), DecodeError>(e),
            },
            final(g).wf(),
            final(g).cleared_from(old(g), old(self).runtime.node as int),
    {
        let r = merge_from(&mut self.fields, bytes, 0);
        self.runtime.clear_cached_size(g);
        r
    }
}

/// A value of a tagged union: the tag of its variant and the variant's fields.
#[derive(Debug, PartialEq, Eq)]
pub struct Variant {
    pub tag: u16,
    pub fields: Vec<Field>,
}

/// A union value's encoding: the variant's tag as a varint, then its fields.
pub open spec fn variant_enc(tag: u16, fs: Seq<WireField>) -> Seq<u8> {
    varint_enc(tag as nat) + fields_enc(fs)
}

/// Index of the first variant with tag `tag`, or -1.
pub open spec fn find_variant(shapes: Seq<Variant>, tag: int, i: int) -> int
    decreases shapes.len() - i,
{
    if i < 0 || i >= shapes.len() {
        -1
    } else if shapes[i].tag as int == tag {
        i
    } else {
        find_variant(shapes, tag, i + 1)
    }
}

/// What decoding a union value from `s` yields, given each variant's fresh
/// fields: the variant's tag and its fields after applying the decoded ones.
pub open spec fn decode_variant_spec(shapes: Seq<Variant>, s: Seq<u8>) -> Result<(u16, Seq<WireField>), DecodeError> {
    match read_u64(s, 0) {
        Err(e) => Err(e),
        Ok((t, p)) => {
            let k = find_variant(shapes, t as int, 0);
            if k < 0 {
                Err(DecodeError::UnknownVariant)
            } else {
                match parse_from(s, p) {
                    Ok(fs) => Ok((shapes[k].tag, apply_all(fields_view(shapes[k].fields@), fs))),
                    Err(e) => Err(e),
                }
            }
        },
    }
}

impl Variant {
    /// Exact length of the union value's encoding.
    pub fn size(&self) -> (r: u32)
        requires
            variant_enc(self.tag, fields_view(self.fields@)).len() <= u32::MAX,
        ensures
            r as nat == variant_enc(self.tag, fields_view(self.fields@)).len(),
    {
        varint_size(self.tag as u64) + fields_size(&self.fields)
    }

    /// A fresh value of variant `k` of `shapes`.
    pub fn fresh(shapes: &Vec<Variant>, k: usize) -> (r: Variant)
        requires
            k < shapes@.len(),
        ensures
            r.tag == shapes@[k as int].tag,
            fields_view(r.fields@) == fields_view(shapes@[k as int].fields@),
    {
        Variant { tag: shapes[k].tag, fields: copy_fields(&shapes[k].fields) }
    }

    /// Sets field `index` of variant `k` to `value`; a value of another
    /// variant is first replaced by a fresh value of variant `k`.
    pub fn set_field(&mut self, shapes: &Vec<Variant>, k: usize, index: usize, value: FieldValue)
        requires
            k < shapes@.len(),
            index < shapes@[k as int].fields@.len(),
            value_wire_type(value@) == value_wire_type(shapes@[k as int].fields@[index as int].value@),
            old(self).tag == shapes@[k as int].tag ==> same_shape(
                fields_view(old(self).fields@),
                fields_view(shapes@[k as int].fields@),
            ),
        ensures
            final(self).tag == shapes@[k as int].tag,
            ({
                let base = if old(self).tag == shapes@[k as int].tag {
                    fields_view(old(self).fields@)
                } else {
                    fields_view(shapes@[k as int].fields@)
                };
                fields_view(final(self).fields@) == base.update(
                    index as int,
                    WireField { tag: base[index as int].tag, value: value@ },
                )
            }),
    {
        if self.tag != shapes[k].tag {
            *self = Variant::fresh(shapes, k);
        }
        assert(fields_view(shapes@[k as int].fields@).len() == shapes@[k as int].fields@.len());
        assert(fields_view(self.fields@).len() == self.fields@.len());
        assert(index < self.fields@.len());
        assert(fields_view(self.fields@)[index as int] == self.fields@[index as int]@);
        let ghost f0 = self.fields@;
        let tag = self.fields[index].tag;
        self.fields.set(index, Field { tag, value });
        assert(fields_view(self.fields@) =~= fields_view(f0).update(
            index as int,
            WireField { tag: tag as nat, value: value@ },
        ));
    }

    /// Appends the union value's encoding.
    pub fn serialize(&self, out: &mut Vec<u8>)
        ensures
            final(out)@ == old(out)@ + variant_enc(self.tag, fields_view(self.fields@)),
    {
        encode_varint(self.tag as u64, out);
        encode_fields(&self.fields, out);
        assert(out@ =~= old(out)@ + variant_enc(self.tag, fields_view(self.fields@)));
    }

    /// Decodes a union value: reads the variant's tag, starts from that
    /// variant's fresh fields in `shapes`, and merges the rest of `bytes`.
    pub fn deserialize(shapes: &Vec<Variant>, bytes: &Vec<u8>) -> (r: Result<Variant, DecodeError>)
        ensures
            match decode_variant_spec(shapes@, bytes@) {
                Ok((t, fs)) => r matches Ok(v) && v.tag == t && fields_view(v.fields@) == fs,
                Err(e) => r matches Err(e2) && e2 == e,
            },
    {
        let (t, p) = match decode_varint(bytes, 0) {
            Ok(tp) => tp,
            Err(e) => return Err(e),
        };
        let mut k: usize = 0;
        while k < shapes.len() && shapes[k].tag as u64 != t
            invariant
                0 <= k <= shapes@.len(),
                find_variant(shapes@, t as int, 0) == find_variant(shapes@, t as int, k as int),
            decreases shapes@.len() - k,
        {
            k = k + 1;
        }
        if k == shapes.len() {
            return Err(DecodeError::UnknownVariant);
        }
        let mut fields = copy_fields(&shapes[k].fields);
        match merge_from(&mut fields, bytes, p) {
            Ok(()) => Ok(Variant { tag: shapes[k].tag, fields }),
            Err(e) => Err(e),
        }
    }
}

/// Variant round trip: the encoding of a union value, decoded against
/// variant shapes with distinct tags among which its own variant's fresh
/// fields have its shape, gives back its variant and fields.
pub proof fn lemma_variant_round_trip(shapes: Seq<Variant>, k: int, v: Seq<WireField>)
    requires
        0 <= k < shapes.len(),
        forall|i: int, j: int| 0 <= i < j < shapes.len() ==> shapes[i].tag != shapes[j].tag,
        same_shape(fields_view(shapes[k].fields@), v),
        tags_unique(fields_view(shapes[k].fields@)),
        fields_ok(v),
    ensures
        decode_variant_spec(shapes, variant_enc(shapes[k].tag, v)) == Ok::<(u16, Seq<WireField>), DecodeError>(
            (shapes[k].tag, v),
        ),
{
    let tag = shapes[k].tag;
    let s = variant_enc(tag, v);
    lemma_varint_round_trip(Seq::empty(), tag as nat, fields_enc(v));
    assert(s =~= Seq::<u8>::empty() + varint_enc(tag as nat) + fields_enc(v));
    lemma_find_variant(shapes, tag as int, k, 0);
    lemma_parse_fields_enc(varint_enc(tag as nat), v);
    lemma_round_trip(fields_view(shapes[k].fields@), v);
}

proof fn lemma_find_variant(shapes: Seq<Variant>, tag: int, k: int, i: int)
    requires
        forall|a: int, b: int| 0 <= a < b < shapes.len() ==> shapes[a].tag != shapes[b].tag,
        0 <= i <= k < shapes.len(),
        shapes[k].tag as int == tag,
    ensures
        find_variant(shapes, tag, i) == k,
    decreases k - i,
{
    if i < k {
        lemma_find_variant(shapes, tag, k, i + 1);
    }
}

} // verus!
