use vstd::prelude::*;

use crate::row::{lemma_rows_model_push, rows_model, RowModel, ShuffleRow};

verus! {

broadcast use vstd::seq_lib::group_seq_properties;

/// Byte `k` (little-endian) of `x`.
pub open spec fn byte_of(x: u64, k: u64) -> u8 {
    ((x >> (8 * k)) & 0xff) as u8
}

/// The eight little-endian bytes of `x`.
pub open spec fn u64_le(x: u64) -> Seq<u8> {
    seq![
        byte_of(x, 0),
        byte_of(x, 1),
        byte_of(x, 2),
        byte_of(x, 3),
        byte_of(x, 4),
        byte_of(x, 5),
        byte_of(x, 6),
        byte_of(x, 7),
    ]
}

/// The four little-endian bytes of `x`.
pub open spec fn u32_le(x: u32) -> Seq<u8> {
    seq![byte_of(x as u64, 0), byte_of(x as u64, 1), byte_of(x as u64, 2), byte_of(x as u64, 3)]
}

/// One staged record: row id, partition id, then the code.
pub open spec fn record_bytes(r: RowModel) -> Seq<u8> {
    u64_le(r.0) + u32_le(r.1) + r.2
}

/// A run of staged records, one after another.
pub open spec fn encoded(rows: Seq<RowModel>) -> Seq<u8>
    decreases rows.len(),
{
    if rows.len() == 0 {
        Seq::empty()
    } else {
        encoded(rows.drop_last()) + record_bytes(rows.last())
    }
}

/// Bytes in one record with codes of `code_width` bytes.
pub open spec fn record_len(code_width: int) -> int {
    12 + code_width
}

/// Every row's code is `code_width` bytes wide.
pub open spec fn codes_of_width(rows: Seq<RowModel>, code_width: int) -> bool {
    forall|i: int| 0 <= i < rows.len() ==> (#[trigger] rows[i]).2.len() == code_width
}

fn push_u64(out: &mut Vec<u8>, x: u64)
    ensures
        final(out)@ == old(out)@ + u64_le(x),
{
    let mut k: u64 = 0;
    let ghost start = out@;
    while k < 8
        invariant
            k <= 8,
            out@ == start + u64_le(x).take(k as int),
        decreases 8 - k,
    {
        let b = ((x >> (8 * k)) & 0xff) as u8;
        proof {
            assert(u64_le(x).take(k + 1) == u64_le(x).take(k as int).push(byte_of(x, k)));
        }
        out.push(b);
        k = k + 1;
    }
    proof {
        assert(u64_le(x).take(8) == u64_le(x));
    }
}

fn push_u32(out: &mut Vec<u8>, x: u32)
    ensures
        final(out)@ == old(out)@ + u32_le(x),
{
    let mut k: u64 = 0;
    let ghost start = out@;
    while k < 4
        invariant
            k <= 4,
            out@ == start + u32_le(x).take(k as int),
        decreases 4 - k,
    {
        let b = (((x as u64) >> (8 * k)) & 0xff) as u8;
        proof {
            assert(u32_le(x).take(k + 1) == u32_le(x).take(k as int).push(byte_of(x as u64, k)));
        }
        out.push(b);
        k = k + 1;
    }
    proof {
        assert(u32_le(x).take(4) == u32_le(x));
    }
}

/// Writes rows as staged records, one after another.
pub fn encode_rows(rows: &Vec<ShuffleRow>) -> (out: Vec<u8>)
    ensures
        out@ == encoded(rows_model(rows@)),
{
    let mut out: Vec<u8> = Vec::new();
    let mut i: usize = 0;
    proof {
        assert(rows_model(rows@.take(0)) =~= Seq::<RowModel>::empty());
    }
    while i < rows.len()
        invariant
            i <= rows.len(),
            out@ == encoded(rows_model(rows@.take(i as int))),
        decreases rows.len() - i,
    {
        let r = &rows[i];
        push_u64(&mut out, r.row_id);
        push_u32(&mut out, r.part_id);
        let mut j: usize = 0;
        let ghost mid = out@;
        while j < r.code.len()
            invariant
                j <= r.code.len(),
                out@ == mid + r.code@.take(j as int),
            decreases r.code.len() - j,
        {
            proof {
                assert(r.code@.take(j + 1) == r.code@.take(j as int).push(r.code@[j as int]));
            }
            out.push(r.code[j]);
            j = j + 1;
        }
        proof {
            assert(r.code@.take(r.code.len() as int) == r.code@);
            assert(rows@.take(i + 1) == rows@.take(i as int).push(rows@[i as int]));
            lemma_rows_model_push(rows@.take(i as int), rows@[i as int]);
            let m = rows_model(rows@.take(i + 1));
            assert(m.drop_last() == rows_model(rows@.take(i as int)));
            assert(m.last() == rows@[i as int]@);
        }
        i = i + 1;
    }
    proof {
        assert(rows@.take(rows.len() as int) == rows@);
    }
    out
}

proof fn lemma_u64_from_bytes(b: Seq<u8>, x: u64)
    requires
        b.len() == 8,
        x == (b[0] as u64) | ((b[1] as u64) << 8u64) | ((b[2] as u64) << 16u64) | ((b[3] as u64)
            << 24u64) | ((b[4] as u64) << 32u64) | ((b[5] as u64) << 40u64) | ((b[6] as u64)
            << 48u64) | ((b[7] as u64) << 56u64),
    ensures
        u64_le(x) == b,
{
    let (b0, b1, b2, b3, b4, b5, b6, b7) = (b[0], b[1], b[2], b[3], b[4], b[5], b[6], b[7]);
    assert(((x >> 0u64) & 0xff) as u8 == b0 && ((x >> 8u64) & 0xff) as u8 == b1 && ((x >> 16u64)
        & 0xff) as u8 == b2 && ((x >> 24u64) & 0xff) as u8 == b3 && ((x >> 32u64) & 0xff) as u8
        == b4 && ((x >> 40u64) & 0xff) as u8 == b5 && ((x >> 48u64) & 0xff) as u8 == b6 && ((x
        >> 56u64) & 0xff) as u8 == b7) by (bit_vector)
        requires
            x == (b0 as u64) | ((b1 as u64) << 8u64) | ((b2 as u64) << 16u64) | ((b3 as u64)
                << 24u64) | ((b4 as u64) << 32u64) | ((b5 as u64) << 40u64) | ((b6 as u64)
                << 48u64) | ((b7 as u64) << 56u64),
    ;
    assert(u64_le(x) =~= b);
}

proof fn lemma_u32_from_bytes(b: Seq<u8>, x: u32)
    requires
        b.len() == 4,
        x == (b[0] as u32) | ((b[1] as u32) << 8u32) | ((b[2] as u32) << 16u32) | ((b[3] as u32)
            << 24u32),
    ensures
        u32_le(x) == b,
{
    let (b0, b1, b2, b3) = (b[0], b[1], b[2], b[3]);
    let y = x as u64;
    assert(((y >> 0u64) & 0xff) as u8 == b0 && ((y >> 8u64) & 0xff) as u8 == b1 && ((y >> 16u64)
        & 0xff) as u8 == b2 && ((y >> 24u64) & 0xff) as u8 == b3) by (bit_vector)
        requires
            y == x as u64,
            x == (b0 as u32) | ((b1 as u32) << 8u32) | ((b2 as u32) << 16u32) | ((b3 as u32)
                << 24u32),
    ;
    assert(u32_le(x) =~= b);
}

/// Reads staged records back: `None` when the bytes are not a whole number
/// of records of codes `code_width` bytes wide; else the rows whose records
/// they are.
pub fn decode_rows(bytes: &Vec<u8>, code_width: usize) -> (r: Option<Vec<ShuffleRow>>)
    ensures
        r is None <==> code_width > usize::MAX - 12 || bytes.len() as int % record_len(code_width as int)
            != 0,
        r matches Some(rows) ==> encoded(rows_model(rows@)) == bytes@ && codes_of_width(
            rows_model(rows@),
            code_width as int,
        ),
{
    if code_width > usize::MAX - 12 {
        return None;
    }
    let rec = 12 + code_width;
    if bytes.len() % rec != 0 {
        return None;
    }
    let mut out: Vec<ShuffleRow> = Vec::new();
    let mut pos: usize = 0;
    proof {
        assert(rows_model(out@) =~= Seq::<RowModel>::empty());
        assert(bytes@.take(0) =~= Seq::<u8>::empty());
    }
    while pos < bytes.len()
        invariant
            rec == 12 + code_width,
            pos <= bytes.len(),
            (bytes.len() - pos) as int % rec as int == 0,
            encoded(rows_model(out@)) == bytes@.take(pos as int),
            codes_of_width(rows_model(out@), code_width as int),
        decreases bytes.len() - pos,
    {
        proof {
            let left = (bytes.len() - pos) as int;
            if left < rec {
                vstd::arithmetic::div_mod::lemma_small_mod(left as nat, rec as nat);
            }
            vstd::arithmetic::div_mod::lemma_mod_sub_multiples_vanish(left, rec as int);
            assert((-(rec as int) + left) == left - rec);
        }
        let b = bytes;
        let p = pos;
        let row_id: u64 = (b[p] as u64) | ((b[p + 1] as u64) << 8u64) | ((b[p + 2] as u64) << 16u64)
            | ((b[p + 3] as u64) << 24u64) | ((b[p + 4] as u64) << 32u64) | ((b[p + 5] as u64)
            << 40u64) | ((b[p + 6] as u64) << 48u64) | ((b[p + 7] as u64) << 56u64);
        let part_id: u32 = (b[p + 8] as u32) | ((b[p + 9] as u32) << 8u32) | ((b[p + 10] as u32)
            << 16u32) | ((b[p + 11] as u32) << 24u32);
        proof {
            lemma_u64_from_bytes(bytes@.subrange(p as int, p + 8), row_id);
            lemma_u32_from_bytes(bytes@.subrange(p + 8, p + 12), part_id);
        }
        let mut code: Vec<u8> = Vec::new();
        let mut j: usize = 0;
        while j < code_width
            invariant
                j <= code_width,
                p + 12 + code_width <= bytes.len(),
                code@ == bytes@.subrange(p + 12, p + 12 + j),
            decreases code_width - j,
        {
            code.push(bytes[p + 12 + j]);
            j = j + 1;
        }
        let row = ShuffleRow { row_id, part_id, code };
        proof {
            lemma_rows_model_push(out@, row);
            let m = rows_model(out@.push(row));
            assert(m.drop_last() == rows_model(out@));
            assert(record_bytes(row@) =~= bytes@.subrange(p as int, p + rec));
            assert(bytes@.take(p + rec) =~= bytes@.take(p as int) + bytes@.subrange(p as int, p + rec));
        }
        out.push(row);
        pos = pos + rec;
    }
    proof {
        assert(bytes@.take(bytes.len() as int) == bytes@);
    }
    Some(out)
}

proof fn lemma_u64_le_injective(x: u64, y: u64)
    requires
        u64_le(x) == u64_le(y),
    ensures
        x == y,
{
    assert(u64_le(x)[0] == u64_le(y)[0] && u64_le(x)[1] == u64_le(y)[1] && u64_le(x)[2] == u64_le(
        y,
    )[2] && u64_le(x)[3] == u64_le(y)[3] && u64_le(x)[4] == u64_le(y)[4] && u64_le(x)[5]
        == u64_le(y)[5] && u64_le(x)[6] == u64_le(y)[6] && u64_le(x)[7] == u64_le(y)[7]);
    assert(x == y) by (bit_vector)
        requires
            ((x >> 0u64) & 0xff) as u8 == ((y >> 0u64) & 0xff) as u8,
            ((x >> 8u64) & 0xff) as u8 == ((y >> 8u64) & 0xff) as u8,
            ((x >> 16u64) & 0xff) as u8 == ((y >> 16u64) & 0xff) as u8,
            ((x >> 24u64) & 0xff) as u8 == ((y >> 24u64) & 0xff) as u8,
            ((x >> 32u64) & 0xff) as u8 == ((y >> 32u64) & 0xff) as u8,
            ((x >> 40u64) & 0xff) as u8 == ((y >> 40u64) & 0xff) as u8,
            ((x >> 48u64) & 0xff) as u8 == ((y >> 48u64) & 0xff) as u8,
            ((x >> 56u64) & 0xff) as u8 == ((y >> 56u64) & 0xff) as u8,
    ;
}

proof fn lemma_record_injective(a: RowModel, b: RowModel)
    requires
        a.2.len() == b.2.len(),
        record_bytes(a) == record_bytes(b),
    ensures
        a == b,
{
    let ra = record_bytes(a);
    let rb = record_bytes(b);
    assert(ra.subrange(0, 8) == u64_le(a.0));
    assert(rb.subrange(0, 8) == u64_le(b.0));
    lemma_u64_le_injective(a.0, b.0);
    assert(ra.subrange(8, 12) == u32_le(a.1));
    assert(rb.subrange(8, 12) == u32_le(b.1));
    assert(a.1 == b.1) by {
        assert(u32_le(a.1) == u32_le(b.1));
        assert(u32_le(a.1)[0] == u32_le(b.1)[0] && u32_le(a.1)[1] == u32_le(b.1)[1] && u32_le(
            a.1,
        )[2] == u32_le(b.1)[2] && u32_le(a.1)[3] == u32_le(b.1)[3]);
        let (x, y) = (a.1, b.1);
        assert(x == y) by (bit_vector)
            requires
                (((x as u64) >> 0u64) & 0xff) as u8 == (((y as u64) >> 0u64) & 0xff) as u8,
                (((x as u64) >> 8u64) & 0xff) as u8 == (((y as u64) >> 8u64) & 0xff) as u8,
                (((x as u64) >> 16u64) & 0xff) as u8 == (((y as u64) >> 16u64) & 0xff) as u8,
                (((x as u64) >> 24u64) & 0xff) as u8 == (((y as u64) >> 24u64) & 0xff) as u8,
        ;
    }
    assert(ra.subrange(12, ra.len() as int) == a.2);
    assert(rb.subrange(12, rb.len() as int) == b.2);
}

proof fn lemma_encoded_len(rows: Seq<RowModel>)
    ensures
        encoded(rows).len() >= 12 * (if rows.len() > 0 { 1int } else { 0int }),
    decreases rows.len(),
{
    if rows.len() > 0 {
        lemma_encoded_len(rows.drop_last());
    }
}

/// Staged records read back give the rows written: two runs of rows with
/// codes of one width that encode to the same bytes are the same rows.
pub proof fn lemma_encoding_injective(a: Seq<RowModel>, b: Seq<RowModel>, code_width: int)
    requires
        codes_of_width(a, code_width),
        codes_of_width(b, code_width),
        encoded(a) == encoded(b),
    ensures
        a == b,
    decreases a.len() + b.len(),
{
    if a.len() == 0 || b.len() == 0 {
        lemma_encoded_len(a);
        lemma_encoded_len(b);
        assert(a =~= b);
    } else {
        let (a1, b1) = (a.drop_last(), b.drop_last());
        let (x, y) = (a.last(), b.last());
        let rx = record_bytes(x);
        let ry = record_bytes(y);
        assert(x.2.len() == code_width && y.2.len() == code_width);
        assert(rx.len() == ry.len());
        let e = encoded(a);
        assert(e == encoded(a1) + rx);
        assert(e == encoded(b1) + ry);
        assert(rx =~= e.subrange(e.len() - rx.len(), e.len() as int));
        assert(ry =~= e.subrange(e.len() - ry.len(), e.len() as int));
        assert(encoded(a1) =~= e.subrange(0, e.len() - rx.len()));
        assert(encoded(b1) =~= e.subrange(0, e.len() - ry.len()));
        lemma_record_injective(x, y);
        assert(codes_of_width(a1, code_width)) by {
            assert forall|i: int| 0 <= i < a1.len() implies (#[trigger] a1[i]).2.len() == code_width by {
                assert(a1[i] == a[i]);
            }
        }
        assert(codes_of_width(b1, code_width)) by {
            assert forall|i: int| 0 <= i < b1.len() implies (#[trigger] b1[i]).2.len() == code_width by {
                assert(b1[i] == b[i]);
            }
        }
        lemma_encoding_injective(a1, b1, code_width);
        assert(a =~= a1.push(x));
        assert(b =~= b1.push(y));
    }
}

} // verus!
