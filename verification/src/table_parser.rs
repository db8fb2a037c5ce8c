//! Reshaping of externally supplied flat truth-table data into per-output
//! column vectors. A flat stream of `input_bits ++ output_bits` rows becomes
//! one compressed table per output column; rows may arrive in any order, and
//! later rows win.

use crate::bits::{bits_to_nat, lemma_bits_to_nat_bound, lemma_pow2_mono, lemma_pow2_pos,
    spec_pow2};
use crate::error::Error;
use vstd::arithmetic::div_mod::lemma_fundamental_div_mod;
use vstd::prelude::*;

verus! {

/// The boolean rows a vector of boolean vectors holds.
pub open spec fn views_of(rows: Seq<Vec<bool>>) -> Seq<Seq<bool>> {
    Seq::new(rows.len(), |i: int| rows[i]@)
}

/// `2^exp`, by repeated doubling.
pub fn pow2(exp: usize) -> (r: usize)
    requires
        spec_pow2(exp as nat) <= usize::MAX as nat,
    ensures
        r as nat == spec_pow2(exp as nat),
{
    let mut result: usize = 1;
    let mut i: usize = 0;
    while i < exp
        invariant
            i <= exp,
            result as nat == spec_pow2(i as nat),
            spec_pow2(exp as nat) <= usize::MAX as nat,
        decreases exp - i,
    {
        proof {
            lemma_pow2_mono((i + 1) as nat, exp as nat);
        }
        result = result * 2;
        i = i + 1;
    }
    result
}

/// The flat vector cut into consecutive rows of `row_len` entries.
pub open spec fn spec_rows(table: Seq<bool>, row_len: int) -> Seq<Seq<bool>> {
    Seq::new(
        (table.len() as int / row_len) as nat,
        |i: int| table.subrange(i * row_len, (i + 1) * row_len),
    )
}

/// Cuts a flat vector into consecutive rows of `len` entries each.
pub fn split_rows(vec: Vec<bool>, len: usize) -> (rows: Vec<Vec<bool>>)
    requires
        len >= 1,
        vec@.len() as int % (len as int) == 0,
    ensures
        rows@.len() == vec@.len() as int / len as int,
        forall|i: int| 0 <= i < rows@.len() ==> (#[trigger] rows@[i])@ == vec@.subrange(
            i * len as int,
            (i + 1) * len as int,
        ),
        views_of(rows@) == spec_rows(vec@, len as int),
{
    let vlen = vec.len();
    let total = vlen / len;
    proof {
        lemma_fundamental_div_mod(vec@.len() as int, len as int);
        assert(vec@.len() as int == len as int * total as int);
        assert(len as int * total as int == total as int * len as int) by (nonlinear_arith);
    }
    let mut rows: Vec<Vec<bool>> = Vec::new();
    let mut r: usize = 0;
    while r < total
        invariant
            r <= total,
            len >= 1,
            total * len == vec@.len(),
            vlen == vec@.len(),
            rows@.len() == r,
            forall|i: int| 0 <= i < r ==> (#[trigger] rows@[i])@ == vec@.subrange(
                i * len as int,
                (i + 1) * len as int,
            ),
        decreases total - r,
    {
        proof {
            assert((r + 1) as int * len as int <= total as int * len as int) by (nonlinear_arith)
                requires
                    r + 1 <= total,
                    len >= 1,
            ;
            assert((r + 1) as int * len as int == r as int * len as int + len as int)
                by (nonlinear_arith);
            assert(r as int * len as int + len as int <= vec@.len());
        }
        let base = r * len;
        let mut row: Vec<bool> = Vec::new();
        let mut i: usize = 0;
        while i < len
            invariant
                i <= len,
                base == r * len,
                base + len <= vec@.len(),
                vlen == vec@.len(),
                row@ == vec@.subrange(base as int, base as int + i as int),
            decreases len - i,
        {
            row.push(vec[base + i]);
            proof {
                assert(vec@.subrange(base as int, base as int + i as int + 1) =~= vec@.subrange(
                    base as int,
                    base as int + i as int,
                ).push(vec@[base as int + i as int]));
            }
            i = i + 1;
        }
        rows.push(row);
        r = r + 1;
    }
    proof {
        assert(views_of(rows@) =~= spec_rows(vec@, len as int));
    }
    rows
}

/// Reads a boolean vector as an unsigned number, index 0 as the most
/// significant bit.
pub fn bool2_int(vec: Vec<bool>) -> (num: usize)
    requires
        spec_pow2(vec@.len()) <= usize::MAX as nat + 1,
    ensures
        num as nat == bits_to_nat(vec@),
{
    let mut num: usize = 0;
    let mut i: usize = 0;
    proof {
        assert(vec@.subrange(0, 0) =~= Seq::<bool>::empty());
    }
    while i < vec.len()
        invariant
            i <= vec@.len(),
            spec_pow2(vec@.len()) <= usize::MAX as nat + 1,
            num as nat == bits_to_nat(vec@.subrange(0, i as int)),
        decreases vec@.len() - i,
    {
        proof {
            lemma_bits_to_nat_bound(vec@.subrange(0, i as int));
            lemma_pow2_mono((i + 1) as nat, vec@.len());
            assert(vec@.subrange(0, i as int + 1).drop_last() =~= vec@.subrange(0, i as int));
        }
        num = num * 2 + (if vec[i] {
            1
        } else {
            0
        });
        i = i + 1;
    }
    proof {
        assert(vec@.subrange(0, vec@.len() as int) =~= vec@);
    }
    num
}

/// Splits one row into the number its input bits encode and its output bits.
pub fn match_line(vec: Vec<bool>, len: usize) -> (r: (usize, Vec<bool>))
    requires
        len <= vec@.len(),
        spec_pow2((vec@.len() - len) as nat) <= usize::MAX as nat + 1,
    ensures
        r.0 as nat == bits_to_nat(vec@.subrange(0, vec@.len() - len)),
        r.1@ == vec@.subrange(vec@.len() - len, vec@.len() as int),
{
    let vl = vec.len();
    let cut = vl - len;
    let mut prefix: Vec<bool> = Vec::new();
    let mut i: usize = 0;
    while i < cut
        invariant
            i <= cut <= vec@.len(),
            prefix@ == vec@.subrange(0, i as int),
        decreases cut - i,
    {
        prefix.push(vec[i]);
        proof {
            assert(vec@.subrange(0, i as int + 1) =~= vec@.subrange(0, i as int).push(
                vec@[i as int],
            ));
        }
        i = i + 1;
    }
    let index = bool2_int(prefix);
    let mut suffix: Vec<bool> = Vec::new();
    let mut j: usize = 0;
    while j < len
        invariant
            j <= len,
            cut == vec@.len() - len,
            vl == vec@.len(),
            suffix@ == vec@.subrange(cut as int, cut as int + j as int),
        decreases len - j,
    {
        suffix.push(vec[cut + j]);
        proof {
            assert(vec@.subrange(cut as int, cut as int + j as int + 1) =~= vec@.subrange(
                cut as int,
                cut as int + j as int,
            ).push(vec@[cut as int + j as int]));
        }
        j = j + 1;
    }
    (index, suffix)
}

/// One filling step per row: the row's input bits name a column, its output
/// bits land there, one per output table.
pub open spec fn spec_fill_rows(rows: Seq<Seq<bool>>, out: Seq<Seq<bool>>, len: nat) -> Seq<
    Seq<bool>,
>
    decreases rows.len(),
{
    if rows.len() == 0 {
        out
    } else {
        let row = rows[0];
        let idx = bits_to_nat(row.subrange(0, row.len() - len)) as int;
        let suffix = row.subrange(row.len() - len, row.len() as int);
        let out2 = Seq::new(out.len(), |i: int| out[i].update(idx, suffix[i]));
        spec_fill_rows(rows.drop_first(), out2, len)
    }
}

/// Builds `len` output tables with one entry per input pattern, all `init`,
/// then fills them row by row: each row's input bits say which entry its
/// output bits set. Rows may come in any order; a later row overwrites.
pub fn match_table(vec_2d: Vec<Vec<bool>>, len: usize, init: bool) -> (result: Vec<Vec<bool>>)
    requires
        vec_2d@.len() >= 1,
        forall|i: int|
            0 <= i < vec_2d@.len() ==> (#[trigger] vec_2d@[i])@.len() == vec_2d@[0]@.len(),
        len <= vec_2d@[0]@.len(),
        spec_pow2((vec_2d@[0]@.len() - len) as nat) <= usize::MAX as nat,
    ensures
        views_of(result@) == spec_fill_rows(
            views_of(vec_2d@),
            Seq::new(
                len as nat,
                |i: int| Seq::new(spec_pow2((vec_2d@[0]@.len() - len) as nat), |j: int| init),
            ),
            len as nat,
        ),
        result@.len() == len,
        forall|i: int|
            0 <= i < result@.len() ==> (#[trigger] result@[i])@.len() == spec_pow2(
                (vec_2d@[0]@.len() - len) as nat,
            ),
{
    let ghost width = vec_2d@[0]@.len();
    let cols = pow2(vec_2d[0].len() - len);
    let mut result: Vec<Vec<bool>> = Vec::new();
    let mut i: usize = 0;
    while i < len
        invariant
            i <= len,
            cols as nat == spec_pow2((width - len) as nat),
            result@.len() == i,
            forall|p: int| 0 <= p < i ==> (#[trigger] result@[p])@ =~= Seq::new(
                cols as nat,
                |j: int| init,
            ),
        decreases len - i,
    {
        let filler: Vec<bool> = vec![init; cols];
        proof {
            assert(filler@ =~= Seq::new(cols as nat, |j: int| init));
        }
        result.push(filler);
        i = i + 1;
    }
    let ghost out0 = Seq::new(
        len as nat,
        |i: int| Seq::new(spec_pow2((width - len) as nat), |j: int| init),
    );
    proof {
        assert forall|p: int| 0 <= p < len implies views_of(result@)[p] == out0[p] by {
            assert(result@[p]@ =~= Seq::new(cols as nat, |j: int| init));
            assert(out0[p] =~= Seq::new(cols as nat, |j: int| init));
        }
        assert(views_of(result@) =~= out0);
    }
    let ghost all_rows = views_of(vec_2d@);
    let mut b: usize = 0;
    proof {
        assert(all_rows.skip(0) =~= all_rows);
    }
    while b < vec_2d.len()
        invariant
            b <= vec_2d@.len(),
            all_rows == views_of(vec_2d@),
            all_rows.len() == vec_2d@.len(),
            forall|p: int| 0 <= p < all_rows.len() ==> (#[trigger] all_rows[p]).len() == width,
            width == vec_2d@[0]@.len(),
            len <= width,
            spec_pow2((width - len) as nat) <= usize::MAX as nat,
            result@.len() == len,
            forall|p: int|
                0 <= p < len ==> (#[trigger] result@[p])@.len() == spec_pow2((width - len) as nat),
            spec_fill_rows(all_rows, out0, len as nat) == spec_fill_rows(
                all_rows.skip(b as int),
                views_of(result@),
                len as nat,
            ),
        decreases vec_2d@.len() - b,
    {
        let row = vec_2d[b].clone();
        proof {
            assert(row@ =~= all_rows[b as int]);
        }
        let (index, outs) = match_line(row, len);
        proof {
            lemma_bits_to_nat_bound(all_rows[b as int].subrange(0, width - len));
        }
        let ghost pre = result@;
        let mut i: usize = 0;
        while i < len
            invariant
                i <= len,
                index < spec_pow2((width - len) as nat),
                outs@.len() == len,
                result@.len() == len,
                pre.len() == len,
                forall|p: int|
                    0 <= p < len ==> (#[trigger] pre[p])@.len() == spec_pow2((width - len) as nat),
                forall|p: int|
                    0 <= p < len ==> (#[trigger] result@[p])@.len() == spec_pow2(
                        (width - len) as nat,
                    ),
                forall|p: int| 0 <= p < i ==> (#[trigger] result@[p])@ == pre[p]@.update(
                    index as int,
                    outs@[p],
                ),
                forall|p: int| i <= p < len ==> (#[trigger] result@[p]) == pre[p],
            decreases len - i,
        {
            result[i][index] = outs[i];
            i = i + 1;
        }
        proof {
            let row_s = all_rows[b as int];
            let suffix = row_s.subrange(row_s.len() - len as nat, row_s.len() as int);
            assert(outs@ == suffix);
            assert(views_of(result@) =~= Seq::new(
                views_of(pre).len(),
                |p: int| views_of(pre)[p].update(index as int, suffix[p]),
            ));
            assert(all_rows.skip(b as int)[0] == row_s);
            assert(all_rows.skip(b as int).drop_first() =~= all_rows.skip(b as int + 1));
            assert(spec_fill_rows(all_rows.skip(b as int), views_of(pre), len as nat)
                == spec_fill_rows(all_rows.skip(b as int + 1), views_of(result@), len as nat));
        }
        b = b + 1;
    }
    proof {
        assert(all_rows.skip(all_rows.len() as int) =~= Seq::<Seq<bool>>::empty());
    }
    result
}

/// What the reshaping of a flat row stream computes: the rows of
/// `in_len + out_len` bits each, poured into `out_len` tables of
/// `2^in_len` entries that start out as `fill`.
pub open spec fn spec_parse_fill(table: Seq<bool>, in_len: nat, out_len: nat, fill: bool) -> Seq<
    Seq<bool>,
> {
    spec_fill_rows(
        spec_rows(table, (in_len + out_len) as int),
        Seq::new(out_len, |i: int| Seq::new(spec_pow2(in_len), |j: int| fill)),
        out_len,
    )
}

/// Filling never changes how many output tables there are.
proof fn lemma_fill_rows_count(rows: Seq<Seq<bool>>, out: Seq<Seq<bool>>, len: nat)
    ensures
        spec_fill_rows(rows, out, len).len() == out.len(),
    decreases rows.len(),
{
    if rows.len() > 0 {
        let row = rows[0];
        let idx = bits_to_nat(row.subrange(0, row.len() - len)) as int;
        let suffix = row.subrange(row.len() - len, row.len() as int);
        let out2 = Seq::new(out.len(), |i: int| out[i].update(idx, suffix[i]));
        lemma_fill_rows_count(rows.drop_first(), out2, len);
    }
}

/// Reshapes a flat stream of `input_bits ++ output_bits` rows into one table
/// per output column, entries not named by any row staying `fill`. With no
/// output columns there is nothing to pour the rows into and the result is
/// empty.
pub fn parse_fill(in_len: usize, out_len: usize, table: Vec<bool>, fill: bool) -> (r: Result<
    Vec<Vec<bool>>,
    Error,
>)
    requires
        in_len + out_len <= usize::MAX,
        in_len + out_len == 0 ==> table@.len() == 0,
        in_len + out_len >= 1 ==> table@.len() as int % (in_len + out_len) as int == 0,
        out_len >= 1 ==> table@.len() >= in_len + out_len,
        out_len >= 1 ==> spec_pow2(in_len as nat) <= usize::MAX as nat,
    ensures
        (r matches Ok(v) && views_of(v@) == spec_parse_fill(
            table@,
            in_len as nat,
            out_len as nat,
            fill,
        ) && v@.len() == out_len),
{
    if out_len == 0 {
        let result: Vec<Vec<bool>> = Vec::new();
        proof {
            lemma_fill_rows_count(
                spec_rows(table@, (in_len + out_len) as int),
                Seq::new(
                    out_len as nat,
                    |i: int| Seq::new(spec_pow2(in_len as nat), |j: int| fill),
                ),
                out_len as nat,
            );
            assert(views_of(result@) =~= spec_parse_fill(
                table@,
                in_len as nat,
                out_len as nat,
                fill,
            ));
        }
        return Ok(result);
    }
    let ghost t = table@;
    let row_len = in_len + out_len;
    let vec_2d = split_rows(table, row_len);
    proof {
        let total = t.len() as int / row_len as int;
        lemma_fundamental_div_mod(t.len() as int, row_len as int);
        assert(t.len() as int == row_len as int * total);
        assert(total * row_len as int == row_len as int * total) by (nonlinear_arith);
        assert(total >= 1) by (nonlinear_arith)
            requires
                t.len() as int >= row_len as int,
                row_len as int >= 1,
                t.len() as int == row_len as int * total,
        ;
        assert(vec_2d@[0]@.len() == row_len) by {
            assert(vec_2d@[0]@ == t.subrange(0, row_len as int));
        }
        assert forall|i: int|
            0 <= i < vec_2d@.len() implies (#[trigger] vec_2d@[i])@.len() == vec_2d@[0]@.len() by {
            assert(vec_2d@[i]@ == t.subrange(i * row_len as int, (i + 1) * row_len as int));
            assert(0 <= i * row_len as int && (i + 1) * row_len as int <= total * row_len as int)
                by (nonlinear_arith)
                requires
                    0 <= i < total,
                    row_len as int >= 1,
            ;
            assert((i + 1) * row_len as int - i * row_len as int == row_len as int)
                by (nonlinear_arith);
        }
    }
    let result = match_table(vec_2d, out_len, fill);
    Ok(result)
}

/// Reshapes a full table whose row count must cover every input pattern
/// exactly once (`2^in_len` rows of `in_len + out_len` bits); anything else
/// is rejected as a shape error. Row order is free.
pub fn parse_full(in_len: usize, out_len: usize, table: Vec<bool>) -> (r: Result<
    Vec<Vec<bool>>,
    Error,
>)
    requires
        spec_pow2(in_len as nat) * (in_len + out_len) as nat <= usize::MAX as nat,
    ensures
        ({
            match r {
                Ok(v) => table@.len() == spec_pow2(in_len as nat) * (in_len + out_len) as nat
                    && views_of(v@) == spec_parse_fill(table@, in_len as nat, out_len as nat, false)
                    && v@.len() == out_len,
                Err(e) => table@.len() != spec_pow2(in_len as nat) * (in_len + out_len) as nat && e
                    == (Error::WrongTableLength {
                    var_count: in_len,
                    table_len: table@.len() as usize,
                }),
            }
        }),
{
    proof {
        lemma_pow2_pos(in_len as nat);
        assert(spec_pow2(in_len as nat) * (in_len + out_len) as nat >= (in_len + out_len) as nat)
            by (nonlinear_arith)
            requires
                spec_pow2(in_len as nat) >= 1,
        ;
        lemma_pow2_mono(0, in_len as nat);
        if in_len + out_len >= 1 {
            assert(spec_pow2(in_len as nat) <= spec_pow2(in_len as nat) * (in_len + out_len) as nat)
                by (nonlinear_arith)
                requires
                    (in_len + out_len) as nat >= 1,
                    spec_pow2(in_len as nat) >= 1,
            ;
        }
    }
    let rows = pow2(in_len);
    let expected = rows * (in_len + out_len);
    if table.len() != expected {
        return Err(Error::WrongTableLength { var_count: in_len, table_len: table.len() });
    }
    proof {
        if in_len + out_len >= 1 {
            assert(table@.len() as int % (in_len + out_len) as int == 0) by (nonlinear_arith)
                requires
                    table@.len() as int == spec_pow2(in_len as nat) * (in_len + out_len) as nat,
                    in_len + out_len >= 1,
            ;
        }
    }
    parse_fill(in_len, out_len, table, false)
}

/// Reshapes an already compressed stream: `out_len` tables of `2^in_len`
/// entries, laid out one table after another (`count_vertical`) or
/// interleaved row by row. Any other length is rejected as a shape error.
pub fn parse_count(in_len: usize, out_len: usize, table: Vec<bool>, count_vertical: bool) -> (r:
    Result<Vec<Vec<bool>>, Error>)
    requires
        spec_pow2(in_len as nat) * out_len as nat <= usize::MAX as nat,
        spec_pow2(in_len as nat) <= usize::MAX as nat,
    ensures
        ({
            match r {
                Ok(v) => {
                    &&& table@.len() == spec_pow2(in_len as nat) * out_len as nat
                    &&& v@.len() == out_len
                    &&& (forall|i: int|
                        0 <= i < out_len ==> (#[trigger] v@[i])@.len() == spec_pow2(in_len as nat))
                    &&& (count_vertical ==> (forall|i: int, j: int|
                        0 <= i < out_len && 0 <= j < spec_pow2(in_len as nat)
                            ==> (#[trigger] v@[i]@[j]) == table@[i * spec_pow2(in_len as nat) + j]))
                    &&& (!count_vertical ==> (forall|i: int, j: int|
                        0 <= i < out_len && 0 <= j < spec_pow2(in_len as nat)
                            ==> (#[trigger] v@[i]@[j]) == table@[j * (out_len as int) + i]))
                },
                Err(e) => table@.len() != spec_pow2(in_len as nat) * out_len as nat && e
                    == (Error::WrongTableLength {
                    var_count: in_len,
                    table_len: table@.len() as usize,
                }),
            }
        }),
{
    let p2 = pow2(in_len);
    let expected = p2 * out_len;
    if table.len() != expected {
        return Err(Error::WrongTableLength { var_count: in_len, table_len: table.len() });
    }
    let tlen = table.len();
    let mut result: Vec<Vec<bool>> = Vec::new();
    let mut i: usize = 0;
    while i < out_len
        invariant
            i <= out_len,
            p2 as nat == spec_pow2(in_len as nat),
            table@.len() == p2 as nat * out_len as nat,
            tlen == table@.len(),
            result@.len() == i,
            forall|c: int| 0 <= c < i ==> (#[trigger] result@[c])@.len() == p2 as nat,
            count_vertical ==> (forall|c: int, j: int|
                0 <= c < i && 0 <= j < p2 ==> (#[trigger] result@[c]@[j]) == table@[c * (
                p2 as int) + j]),
            !count_vertical ==> (forall|c: int, j: int|
                0 <= c < i && 0 <= j < p2 ==> (#[trigger] result@[c]@[j]) == table@[j * (
                out_len as int) + c]),
        decreases out_len - i,
    {
        let mut row: Vec<bool> = Vec::new();
        let mut j: usize = 0;
        while j < p2
            invariant
                j <= p2,
                i < out_len,
                p2 as nat == spec_pow2(in_len as nat),
                table@.len() == p2 as nat * out_len as nat,
                tlen == table@.len(),
                row@.len() == j,
                count_vertical ==> (forall|q: int|
                    0 <= q < j ==> (#[trigger] row@[q]) == table@[i * (p2 as int) + q]),
                !count_vertical ==> (forall|q: int|
                    0 <= q < j ==> (#[trigger] row@[q]) == table@[q * (out_len as int) + i]),
            decreases p2 - j,
        {
            if count_vertical {
                proof {
                    assert(i as int * p2 as int + j < out_len as int * p2 as int)
                        by (nonlinear_arith)
                        requires
                            0 <= i < out_len as int,
                            0 <= j < p2 as int,
                    ;
                    assert(out_len as int * p2 as int == p2 as int * out_len as int)
                        by (nonlinear_arith);
                }
                row.push(table[i * p2 + j]);
            } else {
                proof {
                    assert(j as int * out_len as int + i < p2 as int * out_len as int)
                        by (nonlinear_arith)
                        requires
                            0 <= i < out_len as int,
                            0 <= j < p2 as int,
                    ;
                }
                row.push(table[j * out_len + i]);
            }
            j = j + 1;
        }
        result.push(row);
        i = i + 1;
    }
    Ok(result)
}

} // verus!
