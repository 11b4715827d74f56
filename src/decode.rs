//! Reading framed fields back and merging them into a record, skipping
//! fields that the record does not know.
use vstd::prelude::*;
use crate::varint::{DecodeError, varint_enc, decode_varint, lemma_varint_round_trip};
use crate::wire::{FieldValue, WireValue, WireField, Field, value_wire_type, fields_view, field_enc,
    fields_enc, field_at, parse_from, key_of, wire_code,
};

verus! {

/// Index of the first field at or after `i` that carries `tag`, or -1.
pub open spec fn find_tag(t: Seq<WireField>, tag: nat, i: int) -> int
    decreases t.len() - i,
{
    if i < 0 || i >= t.len() {
        -1
    } else if t[i].tag == tag {
        i
    } else {
        find_tag(t, tag, i + 1)
    }
}

/// Applying one decoded field to a record: the first field with its tag
/// takes its value if the wire types agree; otherwise the field is skipped.
pub open spec fn apply_field(t: Seq<WireField>, f: WireField) -> Seq<WireField> {
    let i = find_tag(t, f.tag, 0);
    if i >= 0 && value_wire_type(t[i].value) == value_wire_type(f.value) {
        t.update(i, f)
    } else {
        t
    }
}

/// Applying decoded fields in stream order.
pub open spec fn apply_all(t: Seq<WireField>, fs: Seq<WireField>) -> Seq<WireField>
    decreases fs.len(),
{
    if fs.len() == 0 {
        t
    } else {
        apply_all(apply_field(t, fs[0]), fs.drop_first())
    }
}

pub open spec fn prepend(done: Seq<WireField>, r: Result<Seq<WireField>, DecodeError>) -> Result<
    Seq<WireField>,
    DecodeError,
> {
    match r {
        Ok(rest) => Ok(done + rest),
        Err(e) => Err(e),
    }
}

/// Reads the field framed at `pos`: its tag, its value, the position after it.
pub fn read_field(bytes: &Vec<u8>, pos: usize) -> (r: Result<(u64, FieldValue, usize), DecodeError>)
    ensures
        match r {
            Ok((tag, v, next)) => field_at(bytes@, pos as int) == Ok::<(WireField, int), DecodeError>(
                (WireField { tag: tag as nat, value: v@ }, next as int),
            ) && pos < next <= bytes@.len(),
            Err(e) => field_at(bytes@, pos as int) == Err::<(WireField, int), DecodeError>(e),
        },
{
    let (key, after_key) = match decode_varint(bytes, pos) {
        Ok(kp) => kp,
        Err(e) => return Err(e),
    };
    if key % 8 == 0 {
        match decode_varint(bytes, after_key) {
            Ok((x, after_len)) => Ok((key / 8, FieldValue::Varint(x), after_len)),
            Err(e) => Err(e),
        }
    } else if key % 8 == 2 {
        let (n, after_len) = match decode_varint(bytes, after_key) {
            Ok(np) => np,
            Err(e) => return Err(e),
        };
        if n > (bytes.len() - after_len) as u64 {
            return Err(DecodeError::Truncated);
        }
        let end: usize = after_len + n as usize;
        let mut content: Vec<u8> = Vec::new();
        let mut i: usize = after_len;
        while i < end
            invariant
                after_len <= i <= end <= bytes@.len(),
                content@ == bytes@.subrange(after_len as int, i as int),
            decreases end - i,
        {
            content.push(bytes[i]);
            assert(bytes@.subrange(after_len as int, i + 1) =~= bytes@.subrange(after_len as int, i as int).push(
                bytes@[i as int],
            ));
            i = i + 1;
        }
        Ok((key / 8, FieldValue::Sized(content), end))
    } else {
        Err(DecodeError::UnknownWireType)
    }
}

proof fn lemma_apply_all_push(t: Seq<WireField>, fs: Seq<WireField>, f: WireField)
    ensures
        apply_all(t, fs.push(f)) == apply_field(apply_all(t, fs), f),
    decreases fs.len(),
{
    if fs.len() == 0 {
        assert(fs.push(f).drop_first() =~= Seq::<WireField>::empty());
        assert(fs.push(f)[0] == f);
        assert(apply_all(apply_field(t, f), Seq::<WireField>::empty()) == apply_field(t, f));
    } else {
        assert(fs.push(f)[0] == fs[0]);
        lemma_apply_all_push(apply_field(t, fs[0]), fs.drop_first(), f);
        assert(fs.push(f).drop_first() =~= fs.drop_first().push(f));
    }
}

/// Decodes the fields framed from `start` to the end of `bytes` and applies
/// each to `target` in stream order; unknown tags are skipped.
///
/// On failure `target` may hold part of the fields and is to be discarded.
pub fn merge_from(target: &mut Vec<Field>, bytes: &Vec<u8>, start: usize) -> (r: Result<(), DecodeError>)
    ensures
        match parse_from(bytes@, start as int) {
            Ok(fs) => r is Ok && fields_view(final(target)@) == apply_all(fields_view(old(target)@), fs),
            Err(e) => r == Err::<(), DecodeError>(e),
        },
{
    let mut pos: usize = start;
    let ghost mut done: Seq<WireField> = Seq::empty();
    while pos < bytes.len()
        invariant
            start <= pos,
            pos <= bytes@.len() || pos == start,
            parse_from(bytes@, start as int) == prepend(done, parse_from(bytes@, pos as int)),
            fields_view(target@) == apply_all(fields_view(old(target)@), done),
        decreases bytes@.len() - pos,
    {
        match read_field(bytes, pos) {
            Err(e) => {
                return Err(e);
            },
            Ok((tag, v, next)) => {
                let ghost f = WireField { tag: tag as nat, value: v@ };
                let ghost before = target@;
                let mut i: usize = 0;
                while i < target.len() && target[i].tag as u64 != tag
                    invariant
                        0 <= i <= target@.len(),
                        target@ == before,
                        find_tag(fields_view(before), tag as nat, 0) == find_tag(
                            fields_view(before),
                            tag as nat,
                            i as int,
                        ),
                    decreases target@.len() - i,
                {
                    i = i + 1;
                }
                if i < target.len() {
                    let same = match (&target[i].value, &v) {
                        (FieldValue::Varint(_), FieldValue::Varint(_)) => true,
                        (FieldValue::Sized(_), FieldValue::Sized(_)) => true,
                        _ => false,
                    };
                    if same {
                        let t = target[i].tag;
                        target[i] = Field { tag: t, value: v };
                        assert(fields_view(target@) =~= fields_view(before).update(i as int, f));
                    }
                }
                proof {
                    lemma_apply_all_push(fields_view(old(target)@), done, f);
                    match parse_from(bytes@, next as int) {
                        Ok(rest) => {
                            assert(done + (seq![f] + rest) =~= done.push(f) + rest);
                        },
                        Err(_) => {},
                    }
                    done = done.push(f);
                }
                pos = next;
            },
        }
    }
    proof {
        assert(done + Seq::<WireField>::empty() =~= done);
    }
    Ok(())
}

/// A field that a record of 16-bit tags can put on the wire.
pub open spec fn field_ok(f: WireField) -> bool {
    &&& f.tag < 65536
    &&& match f.value {
        WireValue::Bytes(b) => b.len() <= u64::MAX,
        WireValue::Varint(_) => true,
    }
}

pub open spec fn fields_ok(fs: Seq<WireField>) -> bool {
    forall|i: int| 0 <= i < fs.len() ==> field_ok(#[trigger] fs[i])
}

/// No two fields share a tag.
pub open spec fn tags_unique(t: Seq<WireField>) -> bool {
    forall|i: int, j: int| 0 <= i < j < t.len() ==> t[i].tag != t[j].tag
}

/// Two records of one shape: the same tags with the same wire types, in order.
pub open spec fn same_shape(t: Seq<WireField>, v: Seq<WireField>) -> bool {
    &&& t.len() == v.len()
    &&& forall|i: int|
        0 <= i < t.len() ==> #[trigger] t[i].tag == v[i].tag && value_wire_type(t[i].value)
            == value_wire_type(v[i].value)
}

proof fn lemma_key_split(f: WireField)
    requires
        field_ok(f),
    ensures
        key_of(f) <= u64::MAX,
        key_of(f) / 8 == f.tag,
        key_of(f) % 8 == wire_code(value_wire_type(f.value)),
{
}

proof fn lemma_field_at_varint(pre: Seq<u8>, f: WireField, x: u64, tail: Seq<u8>)
    requires
        field_ok(f),
        f.value == WireValue::Varint(x),
    ensures
        field_at(pre + field_enc(f) + tail, pre.len() as int) == Ok::<(WireField, int), DecodeError>(
            (f, (pre + field_enc(f)).len() as int),
        ),
{
    let s = pre + field_enc(f) + tail;
    let key = key_of(f);
    lemma_key_split(f);
    let ek = varint_enc(key);
    assert(s =~= pre + ek + (varint_enc(x as nat) + tail));
    lemma_varint_round_trip(pre, key, varint_enc(x as nat) + tail);
    assert(s =~= (pre + ek) + varint_enc(x as nat) + tail);
    lemma_varint_round_trip(pre + ek, x as nat, tail);
}

proof fn lemma_field_at_bytes(pre: Seq<u8>, f: WireField, b: Seq<u8>, tail: Seq<u8>)
    requires
        field_ok(f),
        f.value == WireValue::Bytes(b),
    ensures
        field_at(pre + field_enc(f) + tail, pre.len() as int) == Ok::<(WireField, int), DecodeError>(
            (f, (pre + field_enc(f)).len() as int),
        ),
{
    let s = pre + field_enc(f) + tail;
    let key = key_of(f);
    lemma_key_split(f);
    let ek = varint_enc(key);
    let el = varint_enc(b.len());
    assert(s =~= pre + ek + (el + b + tail));
    lemma_varint_round_trip(pre, key, el + b + tail);
    assert(s =~= (pre + ek) + el + (b + tail));
    lemma_varint_round_trip(pre + ek, b.len(), b + tail);
    let q = (pre + ek + el).len() as int;
    assert(s.subrange(q, q + b.len()) =~= b);
}

/// What is framed after any prefix is read back field by field.
pub proof fn lemma_parse_fields_enc(pre: Seq<u8>, fs: Seq<WireField>)
    requires
        fields_ok(fs),
    ensures
        parse_from(pre + fields_enc(fs), pre.len() as int) == Ok::<Seq<WireField>, DecodeError>(fs),
    decreases fs.len(),
{
    let s = pre + fields_enc(fs);
    let p = pre.len() as int;
    if fs.len() == 0 {
        assert(fs =~= Seq::<WireField>::empty());
    } else {
        let f = fs[0];
        let rest = fs.drop_first();
        assert(field_ok(fs[0]));
        assert forall|i: int| 0 <= i < rest.len() implies field_ok(#[trigger] rest[i]) by {
            assert(rest[i] == fs[i + 1]);
        }
        let pre2 = pre + field_enc(f);
        assert(s =~= pre + field_enc(f) + fields_enc(rest));
        match f.value {
            WireValue::Varint(x) => lemma_field_at_varint(pre, f, x, fields_enc(rest)),
            WireValue::Bytes(b) => lemma_field_at_bytes(pre, f, b, fields_enc(rest)),
        }
        assert(s =~= pre2 + fields_enc(rest));
        lemma_parse_fields_enc(pre2, rest);
        assert(seq![f] + rest =~= fs);
    }
}

proof fn lemma_find_unique(t: Seq<WireField>, tag: nat, k: int, i: int)
    requires
        tags_unique(t),
        0 <= i <= k < t.len(),
        t[k].tag == tag,
    ensures
        find_tag(t, tag, i) == k,
    decreases k - i,
{
    if i < k {
        lemma_find_unique(t, tag, k, i + 1);
    }
}

proof fn lemma_find_absent(t: Seq<WireField>, tag: nat, i: int)
    requires
        0 <= i,
        forall|j: int| 0 <= j < t.len() ==> (#[trigger] t[j]).tag != tag,
    ensures
        find_tag(t, tag, i) == -1,
    decreases t.len() - i,
{
    if i < t.len() {
        lemma_find_absent(t, tag, i + 1);
    }
}

proof fn lemma_apply_suffix(t: Seq<WireField>, v: Seq<WireField>, k: int)
    requires
        same_shape(t, v),
        tags_unique(t),
        0 <= k <= v.len(),
        forall|i: int| 0 <= i < k ==> t[i] == v[i],
    ensures
        apply_all(t, v.subrange(k, v.len() as int)) == v,
    decreases v.len() - k,
{
    if k == v.len() {
        assert(t =~= v);
    } else {
        assert(t[k].tag == v[k].tag);
        lemma_find_unique(t, v[k].tag, k, 0);
        let t2 = t.update(k, v[k]);
        assert(apply_field(t, v[k]) == t2);
        assert(tags_unique(t2)) by {
            assert forall|i: int, j: int| 0 <= i < j < t2.len() implies t2[i].tag != t2[j].tag by {
                assert(t[i].tag == t2[i].tag && t[j].tag == t2[j].tag);
            }
        }
        assert(same_shape(t2, v)) by {
            assert forall|i: int| 0 <= i < t2.len() implies #[trigger] t2[i].tag == v[i].tag
                && value_wire_type(t2[i].value) == value_wire_type(v[i].value) by {
                assert(t[i].tag == v[i].tag);
            }
        }
        lemma_apply_suffix(t2, v, k + 1);
        assert(v.subrange(k, v.len() as int).drop_first() =~= v.subrange(k + 1, v.len() as int));
        assert(v.subrange(k, v.len() as int)[0] == v[k]);
    }
}

proof fn lemma_apply_concat(t: Seq<WireField>, a: Seq<WireField>, b: Seq<WireField>)
    ensures
        apply_all(t, a + b) == apply_all(apply_all(t, a), b),
    decreases a.len(),
{
    if a.len() == 0 {
        assert(a + b =~= b);
    } else {
        lemma_apply_concat(apply_field(t, a[0]), a.drop_first(), b);
        assert((a + b).drop_first() =~= a.drop_first() + b);
        assert((a + b)[0] == a[0]);
    }
}

proof fn lemma_skip_unknown(t: Seq<WireField>, extra: Seq<WireField>)
    requires
        forall|i: int, j: int| 0 <= i < t.len() && 0 <= j < extra.len() ==> t[i].tag != extra[j].tag,
    ensures
        apply_all(t, extra) == t,
    decreases extra.len(),
{
    if extra.len() > 0 {
        assert forall|i: int| 0 <= i < t.len() implies (#[trigger] t[i]).tag != extra[0].tag by {}
        lemma_find_absent(t, extra[0].tag, 0);
        assert forall|i: int, j: int| 0 <= i < t.len() && 0 <= j < extra.drop_first().len()
            implies t[i].tag != extra.drop_first()[j].tag by {
            assert(extra.drop_first()[j] == extra[j + 1]);
        }
        lemma_skip_unknown(t, extra.drop_first());
    }
}

/// Round trip: the encoding of a record, decoded into any record of the same
/// shape (distinct tags), reads back without error and gives the record.
pub proof fn lemma_round_trip(target: Seq<WireField>, v: Seq<WireField>)
    requires
        same_shape(target, v),
        tags_unique(target),
        fields_ok(v),
    ensures
        parse_from(fields_enc(v), 0) == Ok::<Seq<WireField>, DecodeError>(v),
        apply_all(target, v) == v,
{
    lemma_parse_fields_enc(Seq::empty(), v);
    assert(Seq::<u8>::empty() + fields_enc(v) =~= fields_enc(v));
    lemma_apply_suffix(target, v, 0);
    assert(v.subrange(0, v.len() as int) =~= v);
}

/// Forward compatibility: a record written with extra trailing fields, whose
/// tags the reading shape does not know, decodes without error into a record
/// of the older shape, and the extra fields are ignored.
pub proof fn lemma_forward_compatible(target: Seq<WireField>, v: Seq<WireField>, extra: Seq<WireField>)
    requires
        same_shape(target, v),
        tags_unique(target),
        fields_ok(v),
        fields_ok(extra),
        forall|i: int, j: int|
            0 <= i < target.len() && 0 <= j < extra.len() ==> target[i].tag != extra[j].tag,
    ensures
        parse_from(fields_enc(v + extra), 0) == Ok::<Seq<WireField>, DecodeError>(v + extra),
        apply_all(target, v + extra) == v,
{
    assert(fields_ok(v + extra)) by {
        assert forall|i: int| 0 <= i < (v + extra).len() implies field_ok(#[trigger] (v + extra)[i]) by {
            if i < v.len() {
                assert((v + extra)[i] == v[i]);
            } else {
                assert((v + extra)[i] == extra[i - v.len()]);
            }
        }
    }
    lemma_parse_fields_enc(Seq::empty(), v + extra);
    assert(Seq::<u8>::empty() + fields_enc(v + extra) =~= fields_enc(v + extra));
    lemma_round_trip(target, v);
    lemma_apply_concat(target, v, extra);
    assert forall|i: int, j: int| 0 <= i < v.len() && 0 <= j < extra.len() implies v[i].tag
        != extra[j].tag by {
        assert(target[i].tag == v[i].tag);
    }
    lemma_skip_unknown(v, extra);
}

} // verus!
