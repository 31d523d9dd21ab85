//! Minimal plugin headers, made to try out what reads them.

use crate::bytes;
use crate::validate;
use vstd::prelude::*;

verus! {

/// A number below 65536 in two bytes, low byte first; higher bits are left out.
pub open spec fn le16(n: nat) -> Seq<u8> {
    seq![(n % 256) as u8, (n / 256 % 256) as u8]
}

/// A number below 2^32 in four bytes, low byte first; higher bits are left out.
pub open spec fn le32(n: nat) -> Seq<u8> {
    seq![
        (n % 256) as u8,
        (n / 256 % 256) as u8,
        (n / 65536 % 256) as u8,
        (n / 16777216 % 256) as u8,
    ]
}

/// The subrecord that names a master.
pub open spec fn mast(name: Seq<char>) -> Seq<u8> {
    let body = vstd::utf8::encode_utf8(name).push(0);
    seq!['M' as u8, 'A' as u8, 'S' as u8, 'T' as u8] + le16(body.len()) + body
}

/// The subrecords that name these masters.
pub open spec fn masts(names: Seq<Seq<char>>) -> Seq<u8>
    decreases names.len(),
{
    if names.len() == 0 {
        Seq::empty()
    } else {
        masts(names.drop_last()) + mast(names.last())
    }
}

/// Sixteen zero bytes.
pub open spec fn zeros() -> Seq<u8> {
    Seq::new(16, |i: int| 0u8)
}

/// The header of a plugin that requires these masters.
pub open spec fn tes4(names: Seq<Seq<char>>) -> Seq<u8> {
    seq!['T' as u8, 'E' as u8, 'S' as u8, '4' as u8] + le32(masts(names).len()) + zeros() + masts(
        names,
    )
}

fn append_bytes(out: &mut Vec<u8>, more: &[u8])
    ensures
        final(out)@ == old(out)@ + more@,
{
    let ghost start = out@;
    let mut i: usize = 0;
    assert(out@ =~= start + more@.take(0));
    while i < more.len()
        invariant
            i <= more@.len(),
            out@ == start + more@.take(i as int),
        decreases more.len() - i,
    {
        out.push(more[i]);
        i += 1;
        assert(out@ =~= start + more@.take(i as int));
    }
    assert(more@.take(i as int) =~= more@);
}

/// A minimal plugin header that requires these masters.
pub fn fake_tes4_with_masters(masters: &[&str]) -> (r: Vec<u8>)
    ensures
        r@ == tes4(masters@.map_values(|m: &str| m@)),
{
    let ghost names = masters@.map_values(|m: &str| m@);
    let mut data: Vec<u8> = Vec::new();
    let mut i: usize = 0;
    assert(names.take(0) =~= Seq::<Seq<char>>::empty());
    while i < masters.len()
        invariant
            i <= masters@.len(),
            names == masters@.map_values(|m: &str| m@),
            data@ == masts(names.take(i as int)),
        decreases masters.len() - i,
    {
        assert(names.take(i + 1).drop_last() =~= names.take(i as int));
        assert(names.take(i + 1).last() == masters@[i as int]@);
        let ghost before = data@;
        let name: &str = masters[i];
        let mut body: Vec<u8> = Vec::new();
        append_bytes(&mut body, name.as_bytes());
        body.push(0);
        assert(body@ =~= vstd::utf8::encode_utf8(name@).push(0));
        let n: usize = body.len();
        data.push('M' as u8);
        data.push('A' as u8);
        data.push('S' as u8);
        data.push('T' as u8);
        data.push((n % 256) as u8);
        data.push((n / 256 % 256) as u8);
        append_bytes(&mut data, body.as_slice());
        i += 1;
        assert(data@ =~= before + mast(name@));
    }
    assert(names.take(i as int) =~= names);
    let size: u64 = data.len() as u64;
    let mut out: Vec<u8> = Vec::new();
    out.push('T' as u8);
    out.push('E' as u8);
    out.push('S' as u8);
    out.push('4' as u8);
    out.push((size % 256) as u8);
    out.push((size / 256 % 256) as u8);
    out.push((size / 65536 % 256) as u8);
    out.push((size / 16777216 % 256) as u8);
    let ghost head = out@;
    let mut k: usize = 0;
    while k < 16
        invariant
            k <= 16,
            out@ == head + zeros().take(k as int),
        decreases 16 - k,
    {
        out.push(0);
        k += 1;
        assert(out@ =~= head + zeros().take(k as int));
    }
    append_bytes(&mut out, data.as_slice());
    assert(out@ =~= tes4(names));
    out
}

// ---------------------------------------------------------------------------
// Laws
// ---------------------------------------------------------------------------

/// Whether a master's name can be written down and read again: it is not empty,
/// holds no zero character and is short enough for its length to be noted.
pub open spec fn is_master_name(name: Seq<char>) -> bool {
    &&& name.len() > 0
    &&& forall|i: int| 0 <= i < name.len() ==> #[trigger] name[i] != '\0'
    &&& vstd::utf8::encode_utf8(name).len() + 1 < 65536
}

proof fn lemma_scalar_without_zero(c: char)
    requires
        c != '\0',
    ensures
        vstd::utf8::encode_scalar(c as u32).len() > 0,
        forall|i: int|
            0 <= i < vstd::utf8::encode_scalar(c as u32).len() ==> #[trigger] vstd::utf8::encode_scalar(
                c as u32,
            )[i] != 0,
{
    let v = c as u32;
    assert(v != 0);
    assert(1 <= v <= 0x7f ==> (v & 0x7f) as u8 != 0) by (bit_vector);
    assert(0xC0u8 | ((v >> 6) & 0x1F) as u8 != 0) by (bit_vector);
    assert(0xE0u8 | ((v >> 12) & 0x0F) as u8 != 0) by (bit_vector);
    assert(0xF0u8 | ((v >> 18) & 0x7) as u8 != 0) by (bit_vector);
    assert(0x80u8 | (v & 0x3F) as u8 != 0) by (bit_vector);
    assert(0x80u8 | ((v >> 6) & 0x3F) as u8 != 0) by (bit_vector);
    assert(0x80u8 | ((v >> 12) & 0x3F) as u8 != 0) by (bit_vector);
}

proof fn lemma_encoded_without_zero(name: Seq<char>)
    requires
        forall|i: int| 0 <= i < name.len() ==> #[trigger] name[i] != '\0',
    ensures
        name.len() > 0 ==> vstd::utf8::encode_utf8(name).len() > 0,
        forall|i: int| 0 <= i < vstd::utf8::encode_utf8(name).len() ==> #[trigger] vstd::utf8::encode_utf8(name)[i] != 0,
    decreases name.len(),
{
    if name.len() > 0 {
        let rest = name.drop_first();
        assert forall|i: int| 0 <= i < rest.len() implies #[trigger] rest[i] != '\0' by {
            assert(rest[i] == name[i + 1]);
        }
        lemma_encoded_without_zero(rest);
        lemma_scalar_without_zero(name[0]);
        let first = vstd::utf8::encode_scalar(name[0] as u32);
        let all = vstd::utf8::encode_utf8(name);
        assert forall|i: int| 0 <= i < all.len() implies #[trigger] all[i] != 0 by {
            if i < first.len() {
                assert(all[i] == first[i]);
            } else {
                assert(all[i] == vstd::utf8::encode_utf8(rest)[i - first.len()]);
            }
        }
    }
}

proof fn lemma_mast_names(name: Seq<char>)
    requires
        is_master_name(name),
    ensures
        validate::master_name(vstd::utf8::encode_utf8(name).push(0)) == Some(name),
{
    let data = vstd::utf8::encode_utf8(name);
    let body = data.push(0);
    lemma_encoded_without_zero(name);
    assert forall|j: int| 0 <= j < data.len() implies #[trigger] body[j] != 0 by {
        assert(body[j] == data[j]);
    }
    bytes::lemma_up_to_zero(body, data.len() as int);
    assert(body.take(data.len() as int) =~= data);
    vstd::utf8::encode_utf8_valid_utf8(name);
    vstd::utf8::encode_utf8_decode_utf8(name);
}

/// From the first of the subrecords in a row on, the row names its masters.
proof fn lemma_masters_from_row(b: Seq<u8>, i: int, names: Seq<Seq<char>>)
    requires
        0 <= i <= b.len(),
        b.skip(i) == masts_row(names),
        forall|k: int| 0 <= k < names.len() ==> is_master_name(#[trigger] names[k]),
    ensures
        validate::masters_from(b, i) == names,
    decreases names.len(),
{
    if names.len() == 0 {
        assert(b.skip(i).len() == b.len() - i);
        assert(validate::masters_from(b, i) =~= names);
    } else {
        let rest = names.drop_first();
        let m = mast(names[0]);
        let body = vstd::utf8::encode_utf8(names[0]).push(0);
        assert(is_master_name(names[0]));
        assert(b.skip(i) =~= m + masts_row(rest));
        assert(b.skip(i).len() == b.len() - i);
        assert forall|k: int| 0 <= k < m.len() implies #[trigger] m[k] == b[i + k] by {
            assert(b.skip(i)[k] == b[i + k]);
        }
        let size = bytes::le16_at(b, i + 4);
        assert(m[4] == b[i + 4]);
        assert(m[5] == b[i + 5]);
        assert(size == body.len());
        assert(m[0] == b[i] && m[1] == b[i + 1] && m[2] == b[i + 2] && m[3] == b[i + 3]);
        let end = i + 6 + size;
        assert(end <= b.len());
        assert(b.subrange(i + 6, end) =~= body) by {
            assert forall|k: int| 0 <= k < body.len() implies b.subrange(i + 6, end)[k]
                == #[trigger] body[k] by {
                assert(m[6 + k] == body[k]);
                assert(m[6 + k] == b[i + (6 + k)]);
            }
        }
        lemma_mast_names(names[0]);
        assert(b.skip(end) =~= masts_row(rest)) by {
            assert forall|k: int| 0 <= k < masts_row(rest).len() implies b.skip(end)[k]
                == #[trigger] masts_row(rest)[k] by {
                assert(b.skip(i)[m.len() + k] == masts_row(rest)[k]);
            }
        }
        assert forall|k: int| 0 <= k < rest.len() implies is_master_name(#[trigger] rest[k]) by {
            assert(rest[k] == names[k + 1]);
        }
        lemma_masters_from_row(b, end, rest);
        assert(validate::masters_from(b, i) =~= seq![names[0]] + rest);
        assert(seq![names[0]] + rest =~= names);
    }
}

/// The subrecords that name these masters, put together from the first on.
spec fn masts_row(names: Seq<Seq<char>>) -> Seq<u8>
    decreases names.len(),
{
    if names.len() == 0 {
        Seq::empty()
    } else {
        mast(names[0]) + masts_row(names.drop_first())
    }
}

proof fn lemma_masts_row_push(names: Seq<Seq<char>>, name: Seq<char>)
    ensures
        masts_row(names.push(name)) == masts_row(names) + mast(name),
    decreases names.len(),
{
    let all = names.push(name);
    if names.len() == 0 {
        assert(all.drop_first() =~= Seq::<Seq<char>>::empty());
        assert(masts_row(all.drop_first()) =~= Seq::<u8>::empty());
        assert(masts_row(all) =~= masts_row(names) + mast(name));
    } else {
        lemma_masts_row_push(names.drop_first(), name);
        assert(all.drop_first() =~= names.drop_first().push(name));
        assert(masts_row(all) =~= masts_row(names) + mast(name));
    }
}

proof fn lemma_masts_is_row(names: Seq<Seq<char>>)
    ensures
        masts(names) == masts_row(names),
    decreases names.len(),
{
    if names.len() > 0 {
        lemma_masts_is_row(names.drop_last());
        lemma_masts_row_push(names.drop_last(), names.last());
        assert(names.drop_last().push(names.last()) =~= names);
    }
}

/// Reading the masters out of a header that was made for them gives them back,
/// in order.
pub proof fn lemma_masters_read_back(names: Seq<Seq<char>>)
    requires
        forall|k: int| 0 <= k < names.len() ==> is_master_name(#[trigger] names[k]),
        masts(names).len() < 0x1_0000_0000,
    ensures
        validate::masters_in(tes4(names)) == names,
{
    let b = tes4(names);
    let data = masts(names);
    let n = data.len();
    assert(b.len() == 24 + n);
    assert(b[0] == 'T' as u8 && b[1] == 'E' as u8 && b[2] == 'S' as u8 && b[3] == '4' as u8);
    assert(bytes::le32_at(b, 4) == n) by {
        assert(b[4] == n % 256);
        assert(b[5] == n / 256 % 256);
        assert(b[6] == n / 65536 % 256);
        assert(b[7] == n / 16777216 % 256);
    }
    assert(b.take(24 + n as int) =~= b);
    assert(b.skip(24) =~= data);
    lemma_masts_is_row(names);
    lemma_masters_from_row(b, 24, names);
}

/// A subrecord: a tag of four bytes, the size in two bytes, and the content.
pub open spec fn subrecord(tag: Seq<u8>, data: Seq<u8>) -> Seq<u8> {
    tag + le16(data.len()) + data
}

/// These subrecords one after the other, each given by its tag and its content.
pub open spec fn subrecords(rows: Seq<(Seq<u8>, Seq<u8>)>) -> Seq<u8>
    decreases rows.len(),
{
    if rows.len() == 0 {
        Seq::empty()
    } else {
        subrecord(rows[0].0, rows[0].1) + subrecords(rows.drop_first())
    }
}

/// The tag of a subrecord that names a master.
pub open spec fn mast_tag() -> Seq<u8> {
    seq!['M' as u8, 'A' as u8, 'S' as u8, 'T' as u8]
}

/// Whether `name` is what a subrecord says of a master: its content is the name
/// in UTF-8 and a zero byte, behind which anything may follow, if it is a `MAST`
/// subrecord; and any other subrecord says nothing.
pub open spec fn says(row: (Seq<u8>, Seq<u8>), name: Option<Seq<char>>) -> bool {
    &&& row.0.len() == 4
    &&& row.1.len() < 65536
    &&& match name {
        Some(n) => {
            &&& row.0 == mast_tag()
            &&& is_master_name(n)
            &&& vstd::utf8::encode_utf8(n).is_prefix_of(row.1)
            &&& row.1.len() > vstd::utf8::encode_utf8(n).len() ==> row.1[vstd::utf8::encode_utf8(
                n,
            ).len() as int] == 0
        },
        None => row.0 != mast_tag() || row.1.len() == 0 || row.1[0] == 0,
    }
}

/// The names that are said, in order.
pub open spec fn said(names: Seq<Option<Seq<char>>>) -> Seq<Seq<char>> {
    names.filter(|n: Option<Seq<char>>| n is Some).map_values(|n: Option<Seq<char>>| n->0)
}

/// A plugin's record with these sixteen bytes behind the size, and this data.
pub open spec fn tes4_record(middle: Seq<u8>, data: Seq<u8>) -> Seq<u8> {
    seq!['T' as u8, 'E' as u8, 'S' as u8, '4' as u8] + le32(data.len()) + middle + data
}

proof fn lemma_said_first(names: Seq<Option<Seq<char>>>)
    requires
        names.len() > 0,
    ensures
        said(names) == (match names[0] {
            Some(n) => seq![n] + said(names.drop_first()),
            None => said(names.drop_first()),
        }),
{
    let pred = |n: Option<Seq<char>>| n is Some;
    let f = |n: Option<Seq<char>>| n->0;
    let one = seq![names[0]];
    let rest = names.drop_first();
    assert(names =~= one + rest);
    Seq::filter_distributes_over_add(one, rest, pred);
    reveal(Seq::filter);
    assert(one.drop_last() =~= Seq::<Option<Seq<char>>>::empty());
    assert(one.drop_last().filter(pred) =~= Seq::<Option<Seq<char>>>::empty());
    if names[0] is Some {
        assert(one.filter(pred) =~= one);
        assert((one + rest.filter(pred)).map_values(f) =~= seq![names[0]->0]
            + rest.filter(pred).map_values(f));
    } else {
        assert(one.filter(pred) =~= Seq::<Option<Seq<char>>>::empty());
        assert(one.filter(pred) + rest.filter(pred) =~= rest.filter(pred));
    }
}

proof fn lemma_said_content(name: Seq<char>, data: Seq<u8>)
    requires
        says((mast_tag(), data), Some(name)),
    ensures
        validate::master_name(data) == Some(name),
{
    let code = vstd::utf8::encode_utf8(name);
    lemma_encoded_without_zero(name);
    assert forall|j: int| 0 <= j < code.len() implies #[trigger] data[j] != 0 by {
        assert(data[j] == code[j]);
    }
    bytes::lemma_up_to_zero(data, code.len() as int);
    assert(data.take(code.len() as int) =~= code);
    vstd::utf8::encode_utf8_valid_utf8(name);
    vstd::utf8::encode_utf8_decode_utf8(name);
}

proof fn lemma_masters_from_rows(
    b: Seq<u8>,
    i: int,
    rows: Seq<(Seq<u8>, Seq<u8>)>,
    tail: Seq<u8>,
    names: Seq<Option<Seq<char>>>,
)
    requires
        0 <= i <= b.len(),
        b.skip(i) == subrecords(rows) + tail,
        tail.len() < 6,
        names.len() == rows.len(),
        forall|k: int| 0 <= k < rows.len() ==> says(#[trigger] rows[k], names[k]),
    ensures
        validate::masters_from(b, i) == said(names),
    decreases rows.len(),
{
    if rows.len() == 0 {
        assert(b.skip(i).len() == b.len() - i);
        reveal(Seq::filter);
        assert(validate::masters_from(b, i) =~= said(names));
    } else {
        let rest = rows.drop_first();
        let more = names.drop_first();
        let tag = rows[0].0;
        let data = rows[0].1;
        let m = subrecord(tag, data);
        assert(says(rows[0], names[0]));
        let all = b.skip(i);
        assert(all =~= m + (subrecords(rest) + tail));
        assert(all.len() == b.len() - i);
        assert(m.len() == 6 + data.len());
        assert forall|k: int| 0 <= k < m.len() implies #[trigger] m[k] == b[i + k] by {
            assert(all[k] == b[i + k]);
        }
        assert(m[4] == b[i + 4] && m[5] == b[i + 5]);
        let size = bytes::le16_at(b, i + 4);
        assert(size == data.len());
        assert(m[0] == b[i] && m[1] == b[i + 1] && m[2] == b[i + 2] && m[3] == b[i + 3]);
        assert(m[0] == tag[0] && m[1] == tag[1] && m[2] == tag[2] && m[3] == tag[3]);
        let end = i + 6 + size;
        assert(end <= b.len());
        assert(b.subrange(i + 6, end) =~= data) by {
            assert forall|k: int| 0 <= k < data.len() implies b.subrange(i + 6, end)[k]
                == #[trigger] data[k] by {
                assert(m[6 + k] == data[k]);
                assert(m[6 + k] == b[i + (6 + k)]);
            }
        }
        assert(b.skip(end) =~= subrecords(rest) + tail) by {
            let t = subrecords(rest) + tail;
            assert forall|k: int| 0 <= k < t.len() implies b.skip(end)[k] == #[trigger] t[k] by {
                assert(all[m.len() + k] == t[k]);
            }
        }
        assert forall|k: int| 0 <= k < rest.len() implies says(#[trigger] rest[k], more[k]) by {
            assert(rest[k] == rows[k + 1]);
            assert(more[k] == names[k + 1]);
        }
        lemma_masters_from_rows(b, end, rest, tail, more);
        lemma_said_first(names);
        if tag == mast_tag() {
            match names[0] {
                Some(n) => {
                    lemma_said_content(n, data);
                },
                None => {
                    assert(bytes::up_to_zero(data).len() == 0);
                },
            }
        } else {
            assert(!bytes::tag_at(b, i, 'M' as u8, 'A' as u8, 'S' as u8, 'T' as u8)) by {
                if bytes::tag_at(b, i, 'M' as u8, 'A' as u8, 'S' as u8, 'T' as u8) {
                    assert(tag =~= mast_tag());
                }
            }
        }
    }
}

/// The masters that are read from a header are those that its `MAST` subrecords
/// name, in order, whatever other subrecords (`HEDR`, `CNAM`, `DATA` and so on)
/// stand before, between and after them, whatever the rest of the record's head
/// holds, and whatever follows the record in the file.
pub proof fn lemma_only_mast_subrecords_name_masters(
    middle: Seq<u8>,
    rows: Seq<(Seq<u8>, Seq<u8>)>,
    tail: Seq<u8>,
    names: Seq<Option<Seq<char>>>,
    follows: Seq<u8>,
)
    requires
        middle.len() == 16,
        tail.len() < 6,
        names.len() == rows.len(),
        forall|k: int| 0 <= k < rows.len() ==> says(#[trigger] rows[k], names[k]),
        (subrecords(rows) + tail).len() < 0x1_0000_0000,
    ensures
        validate::masters_in(tes4_record(middle, subrecords(rows) + tail) + follows) == names.filter(
            |n: Option<Seq<char>>| n is Some,
        ).map_values(|n: Option<Seq<char>>| n->0),
{
    let data = subrecords(rows) + tail;
    let r = tes4_record(middle, data);
    let b = r + follows;
    let n = data.len();
    assert(r.len() == 24 + n);
    assert(b[0] == 'T' as u8 && b[1] == 'E' as u8 && b[2] == 'S' as u8 && b[3] == '4' as u8);
    assert(bytes::le32_at(b, 4) == n) by {
        assert(b[4] == n % 256);
        assert(b[5] == n / 256 % 256);
        assert(b[6] == n / 65536 % 256);
        assert(b[7] == n / 16777216 % 256);
    }
    assert(b.take(24 + n as int) =~= r);
    assert(r.skip(24) =~= data);
    lemma_masters_from_rows(r, 24, rows, tail, names);
}

/// A file that does not begin with `TES4`, or is too short for a record's head,
/// names no master.
pub proof fn lemma_no_record_no_masters(b: Seq<u8>)
    requires
        b.len() < 24 || b.take(4) != seq!['T' as u8, 'E' as u8, 'S' as u8, '4' as u8],
    ensures
        validate::masters_in(b) == Seq::<Seq<char>>::empty(),
{
    if b.len() >= 24 && bytes::tag_at(b, 0, 'T' as u8, 'E' as u8, 'S' as u8, '4' as u8) {
        assert(b.take(4) =~= seq!['T' as u8, 'E' as u8, 'S' as u8, '4' as u8]);
    }
}

} // verus!
