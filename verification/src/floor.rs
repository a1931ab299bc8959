use vstd::prelude::*;
use vstd::arithmetic::power2::pow2;
use crate::bits::{ilog, predict_point, predict_point_spec, lemma_predict_between};
use crate::codebook::{decode_at, code_read};
use crate::ogg::{invalid_only_at_end, get_bits, get_field, page_bits, bits_in_page, bit_field, reading_at, lemma_page_bits_nonneg,
    lemma_bits_after};
use crate::setup::{codebook_setup_ok, floor1_ok, floor_neighbors_ok, partition_points, floor_key};
use crate::types::{Codebook, Floor1};
use crate::vorbis::{Vorbis, INVALID_BITS};

verus! {

/// The range of the Y values of a floor with the given multiplier (1 to 4).
pub open spec fn floor1_range_spec(multiplier: int) -> int {
    if multiplier == 1 { 256 } else if multiplier == 2 { 128 } else if multiplier == 3 { 86 } else { 64 }
}

/// The range of the Y values of a floor with the given multiplier.
pub fn floor1_range(multiplier: u8) -> (r: i32)
    requires
        1 <= multiplier <= 4,
    ensures
        r == floor1_range_spec(multiplier as int),
{
    if multiplier == 1 { 256 } else if multiplier == 2 { 128 } else if multiplier == 3 { 86 } else { 64 }
}

/// `t / 2` rounded down (an arithmetic shift right by one).
fn half_down(t: i32) -> (r: i32)
    ensures
        r == t as int / 2,
{
    if t >= 0 { t / 2 } else { -((-(t as i64) + 1) / 2) as i32 }
}

/// How many bits each end value of a floor-1 curve takes.
pub open spec fn floor1_end_bits(g: Floor1) -> int {
    crate::bits::ilog_spec(floor1_range_spec(g.floor1_multiplier as int)) - 1
}

/// The state of a reading of Y values from the bits `p` of a page that
/// ends at bit `t`: whether every code so far was found, the bit it has
/// reached, and the values read.
pub type Floor1Reading = (bool, int, Seq<i16>);

/// The reading `st` once it has read the first `k` points of a partition
/// of class `cls` whose class value is `cval`: point `i` takes the subclass
/// book that the `i`-th field of `cbits` bits of `cval` names (lowest field
/// first), and reads one value with it, or is 0 where that book is -1.
pub open spec fn floor1_points(g: Floor1, books: Seq<Codebook>, p: int, t: int, cls: int, cval: int, k: int,
    st: Floor1Reading) -> Floor1Reading
    decreases k,
{
    if k <= 0 {
        st
    } else {
        let prev = floor1_points(g, books, p, t, cls, cval, k - 1, st);
        let cbits = g.class_subclasses@[cls] as nat;
        let book = g.subclass_books@[cls]@[bit_field(cval, ((k - 1) * cbits) as nat, cbits)];
        if book < 0 {
            (prev.0, prev.1, prev.2.push(0))
        } else {
            let d = code_read(books[book as int], p, prev.1, t);
            (prev.0 && d.0, prev.1 + d.2, prev.2.push(d.1 as i16))
        }
    }
}

/// Point `i` of a partition gets its value from the subclass book that the
/// class value, shifted right by `cbits` bits for each point before it,
/// names in its low `cbits` bits: a value read with that book where the
/// points before it left off, or 0, reading nothing, where the book is -1.
pub proof fn lemma_floor1_point_book(g: Floor1, books: Seq<Codebook>, p: int, t: int, cls: int, cval: int, k: int,
    i: int, st: Floor1Reading)
    requires
        0 <= i < k,
    ensures
        floor1_points(g, books, p, t, cls, cval, k, st).2.len() == st.2.len() + k,
        ({
            let cbits = g.class_subclasses@[cls] as nat;
            let book = g.subclass_books@[cls]@[(cval / pow2((i * cbits) as nat) as int) % pow2(cbits) as int];
            let before = floor1_points(g, books, p, t, cls, cval, i, st);
            let after = floor1_points(g, books, p, t, cls, cval, i + 1, st);
            &&& floor1_points(g, books, p, t, cls, cval, k, st).2[st.2.len() + i]
                == (if book < 0 { 0i16 } else { code_read(books[book as int], p, before.1, t).1 as i16 })
            &&& book < 0 ==> after.1 == before.1
            &&& book >= 0 ==> after.1 == before.1 + code_read(books[book as int], p, before.1, t).2
        }),
    decreases k,
{
    lemma_floor1_points_len(g, books, p, t, cls, cval, k, st);
    if k > i + 1 {
        lemma_floor1_point_book(g, books, p, t, cls, cval, k - 1, i, st);
    } else {
        lemma_floor1_points_len(g, books, p, t, cls, cval, i, st);
    }
}

/// Each point of a partition adds one value to the reading.
proof fn lemma_floor1_points_len(g: Floor1, books: Seq<Codebook>, p: int, t: int, cls: int, cval: int, k: int,
    st: Floor1Reading)
    requires
        0 <= k,
    ensures
        floor1_points(g, books, p, t, cls, cval, k, st).2.len() == st.2.len() + k,
    decreases k,
{
    if k > 0 {
        lemma_floor1_points_len(g, books, p, t, cls, cval, k - 1, st);
    }
}

/// The reading `st` once it has read partition `j`: the class value with
/// the master book of its class (none when the class has no subclasses),
/// then a value per point of the class.
pub open spec fn floor1_partition(g: Floor1, books: Seq<Codebook>, p: int, t: int, j: int, st: Floor1Reading) -> Floor1Reading {
    let cls = g.partition_class_list@[j] as int;
    let cdim = g.class_dimensions@[cls] as int;
    if g.class_subclasses@[cls] == 0 {
        floor1_points(g, books, p, t, cls, 0, cdim, st)
    } else {
        let m = code_read(books[g.class_masterbooks@[cls] as int], p, st.1, t);
        floor1_points(g, books, p, t, cls, m.1, cdim, (st.0 && m.0, st.1 + m.2, st.2))
    }
}

/// The reading of the first `n` partitions, from bit `pos` on.
pub open spec fn floor1_partitions(g: Floor1, books: Seq<Codebook>, p: int, t: int, pos: int, n: int) -> Floor1Reading
    decreases n,
{
    if n <= 0 {
        (true, pos, Seq::empty())
    } else {
        floor1_partition(g, books, p, t, n - 1, floor1_partitions(g, books, p, t, pos, n - 1))
    }
}

/// The low `b` bits of a class value and the value past them.
proof fn lemma_class_field(x: i32, b: i32, m: i32)
    requires
        0 <= x,
        0 <= b <= 3,
        m + 1 == pow2(b as nat),
    ensures
        (x & m) as int == x as int % pow2(b as nat) as int,
        (x >> b) as int == x as int / pow2(b as nat) as int,
{
    vstd::arithmetic::power2::lemma2_to64();
    if b == 0 {
        assert((x & 0) == 0 && (x >> 0i32) == x) by (bit_vector);
    } else if b == 1 {
        assert(0 <= x ==> (x & 1) == x % 2 && (x >> 1i32) == x / 2) by (bit_vector);
    } else if b == 2 {
        assert(0 <= x ==> (x & 3) == x % 4 && (x >> 2i32) == x / 4) by (bit_vector);
    } else {
        assert(0 <= x ==> (x & 7) == x % 8 && (x >> 3i32) == x / 8) by (bit_vector);
    }
}

/// Reads the Y values of a floor-1 curve: nothing when the packet leaves
/// the channel without a floor (a first bit of 0), else the two end
/// values and, partition by partition, a value per point decoded with the
/// book its class and subclass choose (0 where that book is -1). Nothing
/// either when the read runs past the end of the packet.
pub fn read_floor1_values(f: &mut Vorbis, g: &Floor1, codebooks: &Vec<Codebook>) -> (r: Option<Vec<i16>>)
    requires
        old(f).wf(),
        1 <= codebooks@.len() <= 256,
        floor1_ok(*g, codebooks@.len() as int),
        forall|i: int| 0 <= i < codebooks@.len() ==> codebook_setup_ok(#[trigger] codebooks@[i]),
    ensures
        final(f).wf(),
        final(f).same_setup(&*old(f)),
        r is Some ==> r->0@.len() == g.values,
        r is Some ==> final(f).valid_bits != INVALID_BITS,
        r is Some ==> 0 <= old(f).valid_bits && (1 <= bits_in_page(*old(f)) ==> page_bits(*old(f)) % 2 == 1),
        r is None ==> final(f).valid_bits == INVALID_BITS
            || (0 <= old(f).valid_bits && (1 <= bits_in_page(*old(f)) ==> page_bits(*old(f)) % 2 == 0)),
        old(f).valid_bits == INVALID_BITS ==> r is None && *final(f) == *old(f),
        r is Some && 0 <= old(f).valid_bits && 1 + 2 * floor1_end_bits(*g) <= bits_in_page(*old(f)) ==> {
            let p = page_bits(*old(f));
            &&& r->0@[0] == bit_field(p, 1, floor1_end_bits(*g) as nat)
            &&& r->0@[1] == bit_field(p, (1 + floor1_end_bits(*g)) as nat, floor1_end_bits(*g) as nat)
        },
        r is Some && 0 <= old(f).valid_bits && 1 + 2 * floor1_end_bits(*g) <= bits_in_page(*old(f)) ==> {
            let e = floor1_partitions(*g, codebooks@, page_bits(*old(f)), bits_in_page(*old(f)),
                1 + 2 * floor1_end_bits(*g), g.partitions as int);
            e.0 ==> r->0@.subrange(2, g.values as int) == e.2
        },
        invalid_only_at_end(*old(f), *final(f)),
{
    reveal(invalid_only_at_end);
    proof { vstd::arithmetic::power2::lemma2_to64(); }
    let ghost f0 = *f;
    let ghost p = page_bits(*f);
    let ghost t = bits_in_page(*f);
    proof { lemma_page_bits_nonneg(*f); }
    let nonzero = get_bits(f, 1);
    if nonzero == 0 {
        return None;
    }
    assert(0 <= f0.valid_bits && (1 <= bits_in_page(f0) ==> page_bits(f0) % 2 == 1));
    let range = floor1_range(g.floor1_multiplier);
    let b = ilog(range) - 1;
    proof {
        reveal_with_fuel(crate::bits::ilog_spec, 10);
        assert(crate::bits::ilog_spec(256) == 9);
        assert(crate::bits::ilog_spec(128) == 8);
        assert(crate::bits::ilog_spec(86) == 7);
        assert(crate::bits::ilog_spec(64) == 7);
    }
    let ghost exact = 0 <= f0.valid_bits && 1 + 2 * floor1_end_bits(*g) <= t;
    proof {
        if exact {
            assert(reading_at(*f, p, 1, t));
        }
    }
    let mut y: Vec<i16> = Vec::new();
    let v0 = get_field(f, b, Ghost(p), Ghost(1), Ghost(t));
    y.push(v0 as i16);
    let v1 = get_field(f, b, Ghost(p), Ghost(1 + b), Ghost(t));
    y.push(v1 as i16);
    let ghost y0 = y@[0];
    let ghost y1 = y@[1];
    proof {
        if exact {
            assert(y0 == bit_field(p, 1, floor1_end_bits(*g) as nat));
            assert(y1 == bit_field(p, (1 + floor1_end_bits(*g)) as nat, floor1_end_bits(*g) as nat));
        }
    }
    let ghost pos0 = 1 + 2 * floor1_end_bits(*g);
    proof {
        if exact {
            assert(y@.subrange(2, y@.len() as int) =~= Seq::<i16>::empty());
        }
    }
    let mut j: usize = 0;
    while j < g.partitions as usize
        invariant
            f.wf(),
            f.same_setup(&*old(f)),
            y@.len() >= 2 && y@[0] == y0 && y@[1] == y1,
            invalid_only_at_end(*old(f), *f),
            1 <= codebooks@.len() <= 256,
            floor1_ok(*g, codebooks@.len() as int),
            forall|i: int| 0 <= i < codebooks@.len() ==> codebook_setup_ok(#[trigger] codebooks@[i]),
            j <= g.partitions,
            y@.len() == 2 + partition_points(g.partition_class_list@, g.class_dimensions@, j as int),
            exact ==> {
                let e = floor1_partitions(*g, codebooks@, p, t, pos0, j as int);
                e.0 ==> reading_at(*f, p, e.1, t) && y@.subrange(2, y@.len() as int) == e.2
            },
        decreases g.partitions - j,
    {
        reveal(invalid_only_at_end);
        let ghost ej = floor1_partitions(*g, codebooks@, p, t, pos0, j as int);
        let pclass = g.partition_class_list[j] as usize;
        let cdim = g.class_dimensions[pclass];
        let cbits = g.class_subclasses[pclass];
        let csub: i32 = crate::setup::pow2_small(cbits) as i32 - 1;
        let mut cval: i32 = 0;
        let ghost mut st0: Floor1Reading = ej;
        let ghost mut sval: int = 0;
        if cbits != 0 {
            let mb = g.class_masterbooks[pclass] as usize;
            let ghost m = code_read(codebooks@[mb as int], p, ej.1, t);
            cval = decode_at(f, &codebooks[mb], Ghost(p), Ghost(ej.1), Ghost(t));
            proof {
                st0 = (ej.0 && m.0, ej.1 + m.2, ej.2);
                sval = m.1;
            }
        }
        let ghost len0 = y@.len();
        proof {
            vstd::arithmetic::power2::lemma2_to64();
            if exact && st0.0 {
                assert(((0 * cbits) as nat) == 0);
                assert(cval as int == sval / pow2((0 * cbits) as nat) as int);
            }
        }
        let mut k: u8 = 0;
        while k < cdim
            invariant
                f.wf(),
                f.same_setup(&*old(f)),
                y@.len() >= 2 && y@[0] == y0 && y@[1] == y1,
                invalid_only_at_end(*old(f), *f),
                1 <= codebooks@.len() <= 256,
                floor1_ok(*g, codebooks@.len() as int),
                forall|i: int| 0 <= i < codebooks@.len() ==> codebook_setup_ok(#[trigger] codebooks@[i]),
                pclass < g.class_dimensions@.len(),
                pclass == g.partition_class_list@[j as int],
                cdim == g.class_dimensions@[pclass as int],
                cbits == g.class_subclasses@[pclass as int],
                csub + 1 == pow2(cbits as nat),
                0 <= csub <= 7,
                k <= cdim,
                y@.len() == len0 + k,
                exact ==> {
                    let e = floor1_points(*g, codebooks@, p, t, pclass as int, sval, k as int, st0);
                    e.0 ==> reading_at(*f, p, e.1, t) && y@.subrange(2, y@.len() as int) == e.2
                        && cval as int == sval / pow2((k * cbits) as nat) as int && sval >= 0
                },
            decreases cdim - k,
        {
            reveal(invalid_only_at_end);
            let ghost ek = floor1_points(*g, codebooks@, p, t, pclass as int, sval, k as int, st0);
            let ghost ek1 = floor1_points(*g, codebooks@, p, t, pclass as int, sval, k + 1, st0);
            let ghost cv = cval;
            let idx = cval & csub;
            assert(0 <= idx <= csub) by (bit_vector) requires idx == cval & csub, 0 <= csub <= 7;
            let book = g.subclass_books[pclass][idx as usize];
            cval = cval >> (cbits as i32);
            proof {
                if exact && ek1.0 {
                    assert(ek.0);
                    lemma_bits_after(sval, (k * cbits) as nat, cbits as nat);
                    lemma_class_field(cv, cbits as i32, csub);
                    assert((k + 1) * cbits == k * cbits + cbits) by (nonlinear_arith);
                    assert(idx as int == bit_field(sval, (k * cbits) as nat, cbits as nat));
                }
            }
            let ghost ysub = y@.subrange(2, y@.len() as int);
            if book >= 0 {
                let v = decode_at(f, &codebooks[book as usize], Ghost(p), Ghost(ek.1), Ghost(t));
                y.push(v as i16);
            } else {
                y.push(0);
            }
            proof {
                assert(y@.subrange(2, y@.len() as int) =~= ysub.push(y@.last()));
            }
            k = k + 1;
        }
        proof {
            assert(floor1_partitions(*g, codebooks@, p, t, pos0, j + 1)
                == floor1_partition(*g, codebooks@, p, t, j as int, ej));
        }
        j = j + 1;
    }
    if f.valid_bits == INVALID_BITS {
        return None;
    }
    Some(y)
}

/// The Y value of a point from its raw value `val` and the value `pred`
/// predicted from its neighbours: the raw value, read as an offset into
/// the room left around the prediction (alternately above and below while
/// both sides have room, then on the roomier side), corrects the
/// prediction; 0 keeps it. Arithmetic wraps at 16 bits.
pub open spec fn step2_value(range: int, pred: int, val: i16) -> i16 {
    let highroom = range - pred;
    let lowroom = pred;
    let room = if highroom < lowroom { highroom * 2 } else { lowroom * 2 };
    if val == 0 {
        pred as i16
    } else if val >= room as i16 {
        if highroom > lowroom {
            (val - (lowroom as i16) + (pred as i16)) as i16
        } else {
            ((pred as i16) - val + (highroom as i16) - 1) as i16
        }
    } else if val % 2 != 0 {
        ((pred as i16) - (val + 1) / 2) as i16
    } else {
        ((pred as i16) + val / 2) as i16
    }
}

/// The Y value of point `j` of a floor once step 2 of the decode has run:
/// the first two points keep their raw values; each later point corrects
/// the value predicted on the line between its two neighbours.
pub open spec fn step2_y(x: Seq<u16>, nb: Seq<(u8, u8)>, range: int, raw: Seq<i16>, j: int) -> i16
    decreases j,
{
    if j < 2 {
        raw[j]
    } else {
        let low = nb[j].0 as int;
        let high = nb[j].1 as int;
        if low < j && high < j {
            let pred = predict_point_spec(x[j] as int, x[low] as int, x[high] as int,
                step2_y(x, nb, range, raw, low) as int, step2_y(x, nb, range, raw, high) as int);
            step2_value(range, pred, raw[j])
        } else {
            raw[j]
        }
    }
}

/// Point `j` (from 2 on) takes part in the curve: its raw value is nonzero.
pub open spec fn step2_corrects(nb: Seq<(u8, u8)>, raw: Seq<i16>, j: int, k: int) -> bool {
    raw[j] != 0 && (j == k || nb[j].0 == k || nb[j].1 == k)
}

/// Point `k` is drawn: it is one of the two ends, or a point with a
/// nonzero raw value, or a neighbour of one.
pub open spec fn step2_used(nb: Seq<(u8, u8)>, raw: Seq<i16>, k: int) -> bool {
    k < 2 || exists|j: int| 2 <= j < raw.len() && #[trigger] step2_corrects(nb, raw, j, k)
}

/// One point of step 2 (see `step2_value`).
fn step2_point(range: i32, pred: i32, val: i16) -> (r: i16)
    requires
        0 <= range <= 256,
        -32768 <= pred <= 32767,
    ensures
        r == step2_value(range as int, pred as int, val),
{
    let highroom = range - pred;
    let lowroom = pred;
    let room = if highroom < lowroom { highroom * 2 } else { lowroom * 2 };
    if val == 0 {
        pred as i16
    } else if val >= room as i16 {
        if highroom > lowroom {
            (val as i32 - (lowroom as i16) as i32 + (pred as i16) as i32) as i16
        } else {
            ((pred as i16) as i32 - val as i32 + (highroom as i16) as i32 - 1) as i16
        }
    } else if val % 2 != 0 {
        ((pred as i16) as i32 - half_down(val as i32 + 1)) as i16
    } else {
        ((pred as i16) as i32 + half_down(val as i32)) as i16
    }
}

/// Every later point of a valid floor lies strictly between the x of its
/// low neighbour (or 0) and the x of its high neighbour.
proof fn lemma_neighbors_bracket(g: Floor1, cc: int, j: int)
    requires
        floor1_ok(g, cc),
        2 <= j < g.values,
    ensures
        g.neighbors@[j].0 < j,
        g.neighbors@[j].1 < j,
        g.xlist@[g.neighbors@[j].0 as int] <= g.xlist@[j] < g.xlist@[g.neighbors@[j].1 as int],
{
    let x = g.xlist@;
    assert(floor_neighbors_ok(x, g.neighbors@[j], j));
    assert(x[1] > x[j]);
    assert(exists|i: int| 0 <= i < j && x[i] > x[j]);
    if exists|i: int| 0 <= i < j && x[i] < x[j] {
    } else {
        assert(x[0] <= x[j]);
    }
}

/// Step 2 of floor decoding: the Y value of every drawn point (see
/// `step2_y`), and -1 for the points left out.
pub fn floor1_step2(g: &Floor1, range: i32, raw: &Vec<i16>) -> (r: Vec<i16>)
    requires
        exists|cc: int| floor1_ok(*g, cc),
        0 <= range <= 256,
        raw@.len() == g.values,
    ensures
        r@.len() == raw@.len(),
        forall|k: int| 0 <= k < raw@.len() ==> #[trigger] r@[k]
            == (if step2_used(g.neighbors@, raw@, k) { step2_y(g.xlist@, g.neighbors@, range as int, raw@, k) } else { -1i16 }),
{
    let ghost cc = choose|cc: int| floor1_ok(*g, cc);
    let ghost x = g.xlist@;
    let ghost nb = g.neighbors@;
    let n = raw.len();
    let mut y: Vec<i16> = Vec::new();
    let mut used: Vec<bool> = Vec::new();
    let mut k: usize = 0;
    while k < n
        invariant
            k <= n == raw@.len(),
            y@ == raw@.subrange(0, k as int),
            used@.len() == k,
            forall|q: int| 0 <= q < k ==> #[trigger] used@[q] == (q < 2),
        decreases n - k,
    {
        y.push(raw[k]);
        used.push(k < 2);
        proof {
            assert(y@ =~= raw@.subrange(0, k as int + 1));
        }
        k = k + 1;
    }
    proof {
        assert(y@ =~= raw@);
    }
    let mut j: usize = 2;
    while j < n
        invariant
            2 <= j <= n || n < 2,
            n == raw@.len() == g.values,
            floor1_ok(*g, cc),
            x == g.xlist@,
            nb == g.neighbors@,
            0 <= range <= 256,
            y@.len() == n,
            used@.len() == n,
            forall|q: int| 0 <= q < j && q < n ==> #[trigger] y@[q] == step2_y(x, nb, range as int, raw@, q),
            forall|q: int| j <= q < n ==> #[trigger] y@[q] == raw@[q],
            forall|q: int| 0 <= q < n ==> #[trigger] used@[q]
                == (q < 2 || exists|jj: int| 2 <= jj < j && #[trigger] step2_corrects(nb, raw@, jj, q)),
        decreases n - j,
    {
        proof { lemma_neighbors_bracket(*g, cc, j as int); }
        let low = g.neighbors[j].0 as usize;
        let high = g.neighbors[j].1 as usize;
        proof {
            lemma_predict_between(x[j as int] as int, x[low as int] as int, x[high as int] as int,
                y@[low as int] as int, y@[high as int] as int);
        }
        let pred = predict_point(g.xlist[j] as i32, g.xlist[low] as i32, g.xlist[high] as i32,
            y[low] as i32, y[high] as i32);
        let val = y[j];
        let v = step2_point(range, pred, val);
        proof {
            assert(v == step2_y(x, nb, range as int, raw@, j as int));
        }
        let ghost used0 = used@;
        if val != 0 {
            used.set(low, true);
            used.set(high, true);
            used.set(j, true);
        }
        y.set(j, v);
        proof {
            assert forall|q: int| 0 <= q < n implies #[trigger] used@[q]
                == (q < 2 || exists|jj: int| 2 <= jj < j + 1 && #[trigger] step2_corrects(nb, raw@, jj, q)) by {
                if step2_corrects(nb, raw@, j as int, q) {
                    assert(used@[q]);
                } else if exists|jj: int| 2 <= jj < j + 1 && #[trigger] step2_corrects(nb, raw@, jj, q) {
                    let jj = choose|jj: int| 2 <= jj < j + 1 && #[trigger] step2_corrects(nb, raw@, jj, q);
                    assert(jj < j);
                }
            }
        }
        j = j + 1;
    }
    let ghost yfull = y@;
    let mut k: usize = 0;
    while k < n
        invariant
            k <= n == raw@.len(),
            y@.len() == n,
            used@.len() == n,
            forall|q: int| 0 <= q < n ==> #[trigger] used@[q] == step2_used(nb, raw@, q),
            forall|q: int| 0 <= q < k ==> #[trigger] y@[q] == (if used@[q] { yfull[q] } else { -1i16 }),
            forall|q: int| k <= q < n ==> #[trigger] y@[q] == yfull[q],
        decreases n - k,
    {
        if !used[k] {
            y.set(k, -1);
        }
        k = k + 1;
    }
    y
}

/// Draws one segment of a floor curve: for each `x` from `x0` up to `x1`
/// (not included, and not past `n`), the Y of the line from `(x0, y0)` to
/// `(x1, y1)` at `x`, its offset from `y0` rounded toward zero, stepping
/// as Bresenham's algorithm does.
pub fn draw_line(out: &mut Vec<i32>, x0: i32, y0: i32, x1: i32, y1: i32, n: i32)
    requires
        x0 != x1,
        x0 < x1 && x0 < n ==> 0 <= x0 && (if x1 < n { x1 as int } else { n as int }) <= old(out)@.len(),
    ensures
        final(out)@.len() == old(out)@.len(),
        forall|x: int| x0 <= x < x1 && x < n ==> #[trigger] final(out)@[x]
            == predict_point_spec(x, x0 as int, x1 as int, y0 as int, y1 as int),
        forall|x: int| 0 <= x < old(out)@.len() && !(x0 <= x < x1 && x < n) ==> #[trigger] final(out)@[x] == old(out)@[x],
{
    if x0 > x1 {
        return;
    }
    let dy: i64 = y1 as i64 - y0 as i64;
    let adx: i64 = x1 as i64 - x0 as i64;
    let ady: i64 = if dy < 0 { -dy } else { dy };
    let base_abs: i64 = ady / adx;
    let rem: i64 = ady % adx;
    proof {
        vstd::arithmetic::div_mod::lemma_fundamental_div_mod(ady as int, adx as int);
        vstd::arithmetic::div_mod::lemma_mod_bound(ady as int, adx as int);
        vstd::arithmetic::mul::lemma_mul_is_commutative(base_abs as int, adx as int);
        vstd::arithmetic::div_mod::lemma_div_is_ordered_by_denominator(ady as int, 1, adx as int);
        vstd::arithmetic::div_mod::lemma_div_pos_is_pos(ady as int, adx as int);
        assert(ady as int / 1 == ady);
    }
    let base: i64 = if dy < 0 { -base_abs } else { base_abs };
    let sy: i64 = if dy < 0 { base - 1 } else { base + 1 };
    let x_end = if x1 > n { n } else { x1 };
    let mut x = x0;
    let mut y: i64 = y0 as i64;
    let mut err: i64 = 0;
    let ghost mut q: int = 0;
    if x < x_end {
        out.set(x as usize, y as i32);
        proof {
            assert(predict_point_spec(x0 as int, x0 as int, x1 as int, y0 as int, y1 as int) == y0);
        }
        x = x + 1;
        proof {
            assert(q * adx + err == (x - 1 - x0) * ady) by (nonlinear_arith)
                requires q == 0, err == 0, x - 1 - x0 == 0;
        }
        while x < x_end
            invariant
                0 <= x0 < x <= x_end <= x1,
                x_end <= n,
                x_end <= out@.len() == old(out)@.len(),
                adx == x1 - x0,
                adx > 0,
                ady as int == (if y1 - y0 < 0 { -(y1 - y0) } else { y1 - y0 }),
                base_abs * adx + rem == ady,
                0 <= rem < adx,
                base_abs >= 0,
                base as int == (if y1 - y0 < 0 { -(base_abs as int) } else { base_abs as int }),
                sy as int == (if y1 - y0 < 0 { base - 1 } else { base + 1 }),
                0 <= err < adx,
                0 <= q <= ady,
                q * adx + err == (x - 1 - x0) * ady,
                y as int == (if y1 - y0 < 0 { y0 - q } else { y0 + q }),
                forall|z: int| x0 <= z < x ==> #[trigger] out@[z]
                    == predict_point_spec(z, x0 as int, x1 as int, y0 as int, y1 as int),
                forall|z: int| 0 <= z < old(out)@.len() && !(x0 <= z < x1 && z < n) ==> #[trigger] out@[z] == old(out)@[z],
            decreases x_end - x,
        {
            let ghost err0 = err as int;
            let ghost q0 = q;
            err = err + rem;
            let ghost c: int = if err >= adx { 1int } else { 0int };
            proof {
                let err1 = err0 + rem - c * adx;
                q = q0 + base_abs + c;
                assert(q * adx + err1 == (x - x0) * ady) by (nonlinear_arith)
                    requires q == q0 + base_abs + c,
                        q0 * adx + err0 == (x - 1 - x0) * ady,
                        err1 == err0 + rem - c * adx,
                        base_abs * adx + rem == ady;
                assert(0 <= err1 < adx);
                assert(q <= ady) by (nonlinear_arith)
                    requires q * adx + err1 == (x - x0) * ady, x - x0 <= adx, err1 >= 0, adx > 0, ady >= 0;
                vstd::arithmetic::div_mod::lemma_fundamental_div_mod_converse(((x - x0) * ady) as int, adx as int, q, err1);
                vstd::arithmetic::mul::lemma_mul_is_commutative(ady as int, (x - x0) as int);
            }
            if err >= adx {
                err = err - adx;
                y = y + sy;
            } else {
                y = y + base;
            }
            out.set(x as usize, y as i32);
            x = x + 1;
        }
    }
}

/// The points a floor curve is drawn through, in drawing order: the point
/// at x 0 first, then each point of the sorted order (after the first)
/// that step 2 kept, with its Y scaled by the floor multiplier.
pub open spec fn curve_points(g: Floor1, fy: Seq<i16>, q: int) -> Seq<(int, int)>
    decreases q,
{
    if q <= 1 {
        seq![(0int, fy[0] * g.floor1_multiplier)]
    } else {
        let pts = curve_points(g, fy, q - 1);
        let j = g.sorted_order@[q - 1] as int;
        if fy[j] >= 0 { pts.push((g.xlist@[j] as int, fy[j] * g.floor1_multiplier)) } else { pts }
    }
}

/// The value at `x` of the piecewise-linear curve through `pts` (from point
/// `i` on): on the line between the two points around `x`, and flat after
/// the last point.
pub open spec fn curve_value(pts: Seq<(int, int)>, x: int, i: int) -> int
    decreases pts.len() - i,
{
    if i + 1 >= pts.len() {
        pts[i].1
    } else if x < pts[i + 1].0 {
        predict_point_spec(x, pts[i].0, pts[i + 1].0, pts[i].1, pts[i + 1].1)
    } else {
        curve_value(pts, x, i + 1)
    }
}

/// The points lie in increasing order of x.
pub open spec fn pts_sorted(pts: Seq<(int, int)>) -> bool {
    forall|a: int, b: int| 0 <= a < b < pts.len() ==> #[trigger] pts[a].0 <= #[trigger] pts[b].0
}

/// A point added after the last leaves the curve before the last point alone.
proof fn lemma_curve_prefix(pts: Seq<(int, int)>, p: (int, int), x: int, i: int)
    requires
        pts_sorted(pts.push(p)),
        0 <= i < pts.len(),
        pts[i].0 <= x < pts.last().0,
    ensures
        curve_value(pts.push(p), x, i) == curve_value(pts, x, i),
    decreases pts.len() - i,
{
    let q = pts.push(p);
    assert(q[i] == pts[i]);
    if i + 1 < pts.len() {
        assert(q[i + 1] == pts[i + 1]);
        if x >= pts[i + 1].0 {
            lemma_curve_prefix(pts, p, x, i + 1);
        }
    }
}

/// Between the last point and an added one, the curve is their line.
proof fn lemma_curve_new_segment(pts: Seq<(int, int)>, p: (int, int), x: int, i: int)
    requires
        pts_sorted(pts.push(p)),
        0 <= i < pts.len(),
        pts[i].0 <= x,
        pts.last().0 <= x < p.0,
    ensures
        curve_value(pts.push(p), x, i) == predict_point_spec(x, pts.last().0, p.0, pts.last().1, p.1),
    decreases pts.len() - i,
{
    let q = pts.push(p);
    assert(q[i] == pts[i]);
    if i + 1 < pts.len() {
        assert(q[i + 1] == pts[i + 1]);
        assert(pts.last() == pts[pts.len() - 1]);
        assert(q[pts.len() - 1] == pts[pts.len() - 1]);
        if i + 1 < pts.len() - 1 {
            assert(q[i + 1].0 <= q[pts.len() - 1].0);
        }
        lemma_curve_new_segment(pts, p, x, i + 1);
    } else {
        assert(q[i + 1] == p);
    }
}

/// After the last point the curve keeps the last point's value.
proof fn lemma_curve_tail(pts: Seq<(int, int)>, x: int, i: int)
    requires
        pts_sorted(pts),
        0 <= i < pts.len(),
        pts[i].0 <= x,
        pts.last().0 <= x,
    ensures
        curve_value(pts, x, i) == pts.last().1,
    decreases pts.len() - i,
{
    if i + 1 < pts.len() {
        assert(pts.last() == pts[pts.len() - 1]);
        if i + 1 < pts.len() - 1 {
            assert(pts[i + 1].0 <= pts[pts.len() - 1].0);
        }
        lemma_curve_tail(pts, x, i + 1);
    }
}

/// The floor curve of a channel over the first `n2` positions: for each
/// `x`, the value of the piecewise-linear curve through the points step 2
/// kept (see `curve_points` and `curve_value`), in units of the table of
/// floor amplitudes.
pub fn floor_curve(g: &Floor1, final_y: &Vec<i16>, n2: i32) -> (r: Vec<i32>)
    requires
        exists|cc: int| floor1_ok(*g, cc),
        final_y@.len() == g.values,
        1 <= n2 <= 4096,
    ensures
        r@.len() == n2,
        forall|x: int| 0 <= x < n2 ==> #[trigger] r@[x] == curve_value(curve_points(*g, final_y@, g.values as int), x, 0),
{
    let ghost cc = choose|cc: int| floor1_ok(*g, cc);
    assert(floor1_ok(*g, cc));
    let ghost xs = g.xlist@;
    let ghost so = g.sorted_order@;
    let mut out: Vec<i32> = crate::setup::filled(0i32, n2 as usize);
    let m = g.floor1_multiplier as i32;
    let mut lx: i32 = 0;
    let y0 = final_y[0] as i32;
    assert(-0x10_0000 <= y0 * m <= 0x10_0000) by (nonlinear_arith) requires -32768 <= y0 <= 32767, 1 <= m <= 4;
    let mut ly: i32 = y0 * m;
    let ghost mut pts: Seq<(int, int)> = curve_points(*g, final_y@, 1);
    proof {
        assert(so[0] == 0) by {
            if so[0] != 0 {
                assert(floor_key(xs, so[0] as int) < floor_key(xs, so[1] as int));
                assert(crate::setup::occurs(so, 0));
                let a = choose|a: int| 0 <= a < so.len() && so[a] == 0;
                assert(floor_key(xs, so[0] as int) < floor_key(xs, so[a] as int));
            }
        }
    }
    let mut q: usize = 1;
    while q < g.values as usize
        invariant
            floor1_ok(*g, cc),
            xs == g.xlist@,
            so == g.sorted_order@,
            final_y@.len() == g.values,
            1 <= q <= g.values,
            1 <= n2 <= 4096,
            out@.len() == n2,
            m == g.floor1_multiplier,
            pts == curve_points(*g, final_y@, q as int),
            pts.len() >= 1,
            pts[0].0 == 0,
            pts.last() == (lx as int, ly as int),
            pts_sorted(pts),
            0 <= lx <= 0x1_0000,
            -0x10_0000 <= ly <= 0x10_0000,
            forall|k: int| q <= k < g.values ==> lx <= #[trigger] xs[so[k] as int],
            forall|x: int| 0 <= x < lx && x < n2 ==> #[trigger] out@[x] == curve_value(pts, x, 0),
        decreases g.values - q,
    {
        let j = g.sorted_order[q] as usize;
        let ghost pts0 = pts;
        if final_y[j] >= 0 {
            let yj = final_y[j] as i32;
            assert(-0x10_0000 <= yj * m <= 0x10_0000) by (nonlinear_arith) requires -32768 <= yj <= 32767, 1 <= m <= 4;
            let hy = yj * m;
            let hx = g.xlist[j] as i32;
            let ghost p = (hx as int, hy as int);
            proof {
                pts = pts0.push(p);
                assert(pts_sorted(pts)) by {
                    assert forall|a: int, b: int| 0 <= a < b < pts.len() implies #[trigger] pts[a].0 <= #[trigger] pts[b].0 by {
                        if b == pts.len() - 1 {
                            assert(pts[a] == pts0[a]);
                            assert(pts0.last() == pts0[pts0.len() - 1]);
                            if a < pts0.len() - 1 {
                                assert(pts0[a].0 <= pts0[pts0.len() - 1].0);
                            }
                        } else {
                            assert(pts[a] == pts0[a] && pts[b] == pts0[b]);
                        }
                    }
                }
            }
            let ghost out0 = out@;
            if lx != hx {
                draw_line(&mut out, lx, ly, hx, hy, n2);
            }
            proof {
                assert forall|x: int| 0 <= x < hx && x < n2 implies #[trigger] out@[x] == curve_value(pts, x, 0) by {
                    if x < lx {
                        lemma_curve_prefix(pts0, p, x, 0);
                    } else {
                        lemma_curve_new_segment(pts0, p, x, 0);
                    }
                }
                assert forall|k: int| q + 1 <= k < g.values implies hx <= #[trigger] xs[so[k] as int] by {
                    assert(floor_key(xs, so[q as int] as int) < floor_key(xs, so[k] as int));
                }
            }
            lx = hx;
            ly = hy;
        } else {
            proof {
                assert forall|k: int| q + 1 <= k < g.values implies lx <= #[trigger] xs[so[k] as int] by {
                    assert(lx <= xs[so[k] as int]);
                }
            }
        }
        q = q + 1;
    }
    let ghost pts_end = pts;
    let mut x = lx;
    while x < n2
        invariant
            0 <= lx <= x || n2 <= x,
            out@.len() == n2,
            pts_end.len() >= 1,
            pts_end[0].0 == 0,
            pts_sorted(pts_end),
            pts_end.last() == (lx as int, ly as int),
            forall|z: int| 0 <= z < x && z < n2 ==> #[trigger] out@[z] == curve_value(pts_end, z, 0),
        decreases n2 - x,
    {
        proof {
            lemma_curve_tail(pts_end, x as int, 0);
        }
        out.set(x as usize, ly);
        x = x + 1;
    }
    out
}

} // verus!
