//! How points are cut into chunks.

use vstd::prelude::*;

verus! {

/// `data` cut into pieces of `size` bytes, of which the last may be shorter.
pub open spec fn chunked(data: Seq<u8>, size: nat) -> Seq<Seq<u8>>
    recommends
        size > 0,
{
    Seq::new(
        ((data.len() + size - 1) / size as int) as nat,
        |k: int|
            data.subrange(
                k * size,
                if (k + 1) * size < data.len() {
                    (k + 1) * size
                } else {
                    data.len() as int
                },
            ),
    )
}

/// The pieces of `size` bytes that `data` fills.
pub open spec fn full_chunks(data: Seq<u8>, size: nat) -> Seq<Seq<u8>>
    recommends
        size > 0,
{
    Seq::new(data.len() / size, |k: int| data.subrange(k * size, (k + 1) * size))
}

/// What `data` holds behind its full pieces of `size` bytes.
pub open spec fn leftover(data: Seq<u8>, size: nat) -> Seq<u8>
    recommends
        size > 0,
{
    data.skip(((data.len() / size) * size) as int)
}

/// The contents of slices.
pub open spec fn contents(slices: Seq<&[u8]>) -> Seq<Seq<u8>> {
    Seq::new(slices.len(), |k: int| slices[k]@)
}

/// The pieces that are left for the end: `rest` where it holds anything.
pub open spec fn last_chunk(rest: Seq<u8>) -> Seq<Seq<u8>> {
    if rest.len() == 0 {
        Seq::empty()
    } else {
        seq![rest]
    }
}

/// Quotient and remainder of a sum whose first part is a multiple.
proof fn lemma_div_of_multiple_plus(q: nat, size: nat, x: nat)
    requires
        size > 0,
    ensures
        (q * size + x) / size == q + x / size,
        (q * size + x) % size == x % size,
{
    let d = size as int;
    vstd::arithmetic::div_mod::lemma_fundamental_div_mod(x as int, d);
    assert(q * size + x == (q + x / size) * d + x % size) by (nonlinear_arith)
        requires
            x == d * (x as int / d) + x as int % d,
            d == size,
            size > 0,
    ;
    vstd::arithmetic::div_mod::lemma_fundamental_div_mod_converse(
        (q * size + x) as int,
        d,
        (q + x / size) as int,
        (x % size) as int,
    );
}

/// The full pieces of data that begin with whole pieces.
pub proof fn lemma_full_chunks_append(a: Seq<u8>, b: Seq<u8>, size: nat)
    requires
        size > 0,
    ensures
        full_chunks(a + b, size) == full_chunks(a, size) + full_chunks(
            leftover(a, size) + b,
            size,
        ),
        leftover(a + b, size) == leftover(leftover(a, size) + b, size),
        leftover(a, size).len() == a.len() % size,
{
    let q = a.len() / size;
    let tail = leftover(a, size) + b;
    vstd::arithmetic::div_mod::lemma_fundamental_div_mod(a.len() as int, size as int);
    assert(q * size == size * q) by (nonlinear_arith);
    lemma_div_of_multiple_plus(q, size, tail.len());
    assert(q * size + tail.len() == (a + b).len());
    let m = tail.len() / size;
    assert((q + m) * size == q * size + m * size) by (nonlinear_arith);
    assert((a + b).skip((q * size) as int) =~= tail);
    let left = full_chunks(a + b, size);
    let right = full_chunks(a, size) + full_chunks(tail, size);
    assert forall|k: int| 0 <= k < left.len() implies #[trigger] left[k] == right[k] by {
        if k < q {
            assert((k + 1) * size <= q * size) by (nonlinear_arith)
                requires
                    k + 1 <= q,
            ;
            assert(0 <= k * size <= (k + 1) * size) by (nonlinear_arith)
                requires
                    0 <= k,
            ;
            assert(left[k] =~= right[k]);
        } else {
            let j = k - q;
            assert(k * size == q * size + j * size) by (nonlinear_arith)
                requires
                    k == j + q,
            ;
            assert((k + 1) * size == q * size + (j + 1) * size) by (nonlinear_arith)
                requires
                    k == j + q,
            ;
            vstd::arithmetic::div_mod::lemma_fundamental_div_mod(tail.len() as int, size as int);
            assert((j + 1) * size <= m * size) by (nonlinear_arith)
                requires
                    j + 1 <= m,
            ;
            assert(m * size == size * m) by (nonlinear_arith);
            assert(0 <= j * size <= (j + 1) * size) by (nonlinear_arith)
                requires
                    0 <= j,
            ;
            assert(left[k] =~= right[k]);
        }
    }
    assert(left =~= right);
    vstd::arithmetic::div_mod::lemma_fundamental_div_mod(tail.len() as int, size as int);
    assert(m * size == size * m) by (nonlinear_arith);
    assert(leftover(a + b, size) =~= leftover(tail, size));
}

/// Data that is shorter than a piece has no full piece.
pub proof fn lemma_short_data(data: Seq<u8>, size: nat)
    requires
        data.len() < size,
    ensures
        full_chunks(data, size) == Seq::<Seq<u8>>::empty(),
        leftover(data, size) == data,
        chunked(data, size) == last_chunk(data),
{
    assert(data.len() / size == 0) by {
        vstd::arithmetic::div_mod::lemma_basic_div(data.len() as int, size as int);
    }
    assert(full_chunks(data, size) =~= Seq::<Seq<u8>>::empty());
    assert(leftover(data, size) =~= data);
    if data.len() == 0 {
        vstd::arithmetic::div_mod::lemma_basic_div(size - 1, size as int);
    } else {
        vstd::arithmetic::div_mod::lemma_fundamental_div_mod_converse(
            data.len() + size - 1,
            size as int,
            1,
            data.len() - 1,
        );
        assert(chunked(data, size)[0] =~= data);
    }
    assert(chunked(data, size) =~= last_chunk(data));
}

/// Data of the size of a piece is one full piece.
pub proof fn lemma_one_chunk(data: Seq<u8>, size: nat)
    requires
        data.len() == size,
        size > 0,
    ensures
        full_chunks(data, size) == seq![data],
        leftover(data, size) == Seq::<u8>::empty(),
{
    vstd::arithmetic::div_mod::lemma_fundamental_div_mod_converse(
        size as int,
        size as int,
        1,
        0,
    );
    assert(full_chunks(data, size)[0] =~= data);
    assert(full_chunks(data, size) =~= seq![data]);
    assert(leftover(data, size) =~= Seq::<u8>::empty());
}

/// Cutting data gives its full pieces and then what is left behind them.
pub proof fn lemma_chunked(data: Seq<u8>, size: nat)
    requires
        size > 0,
    ensures
        chunked(data, size) == full_chunks(data, size) + last_chunk(leftover(data, size)),
        leftover(data, size).len() == data.len() % size,
{
    let q = data.len() / size;
    let r = data.len() % size;
    vstd::arithmetic::div_mod::lemma_fundamental_div_mod(data.len() as int, size as int);
    assert(q * size == size * q) by (nonlinear_arith);
    lemma_div_of_multiple_plus(q, size, (r + size - 1) as nat);
    let left = chunked(data, size);
    let right = full_chunks(data, size) + last_chunk(leftover(data, size));
    if r == 0 {
        vstd::arithmetic::div_mod::lemma_basic_div(size - 1, size as int);
    } else {
        vstd::arithmetic::div_mod::lemma_fundamental_div_mod_converse(
            r + size - 1,
            size as int,
            1,
            r - 1,
        );
    }
    assert(left.len() == right.len());
    assert forall|k: int| 0 <= k < left.len() implies #[trigger] left[k] == right[k] by {
        if k < q {
            assert((k + 1) * size <= q * size) by (nonlinear_arith)
                requires
                    k + 1 <= q,
            ;
            assert(left[k] =~= right[k]);
        } else {
            assert(k == q);
            assert((k + 1) * size == q * size + size) by (nonlinear_arith)
                requires
                    k == q,
            ;
            assert(left[k] =~= right[k]);
        }
    }
    assert(left =~= right);
}

/// Data that begins with whole pieces is cut into those and into the pieces of what follows.
pub proof fn lemma_chunked_append(a: Seq<u8>, b: Seq<u8>, size: nat)
    requires
        size > 0,
        a.len() % size == 0,
    ensures
        chunked(a + b, size) == chunked(a, size) + chunked(b, size),
{
    lemma_full_chunks_append(a, b, size);
    lemma_chunked(a, size);
    lemma_chunked(b, size);
    lemma_chunked(a + b, size);
    assert(leftover(a, size) + b =~= b);
    assert(chunked(a + b, size) =~= chunked(a, size) + chunked(b, size));
}

/// The part of data that its full pieces make up, cut, gives them; the other part is what they
/// leave.
pub proof fn lemma_full_part(data: Seq<u8>, size: nat)
    requires
        size > 0,
    ensures
        ({
            let n = data.len() - data.len() % size;
            &&& n == (data.len() / size) * size
            &&& chunked(data.take(n), size) == full_chunks(data, size)
            &&& leftover(data, size) == data.skip(n)
        }),
{
    let q = data.len() / size;
    let n = data.len() - data.len() % size;
    vstd::arithmetic::div_mod::lemma_fundamental_div_mod(data.len() as int, size as int);
    assert(q * size == size * q) by (nonlinear_arith);
    let part = data.take(n);
    lemma_chunked(part, size);
    lemma_div_of_multiple_plus(q, size, 0);
    vstd::arithmetic::div_mod::lemma_small_mod(0, size);
    vstd::arithmetic::div_mod::lemma_basic_div(0, size as int);
    assert forall|k: int| 0 <= k < q implies #[trigger] full_chunks(part, size)[k] == full_chunks(
        data,
        size,
    )[k] by {
        assert(0 <= k * size <= (k + 1) * size <= q * size) by (nonlinear_arith)
            requires
                0 <= k,
                k + 1 <= q,
        ;
        assert(full_chunks(part, size)[k] =~= full_chunks(data, size)[k]);
    }
    assert(full_chunks(part, size) =~= full_chunks(data, size));
    assert(chunked(part, size) =~= full_chunks(data, size));
}

/// Data that begins with a full piece.
pub proof fn lemma_first_chunk(first: Seq<u8>, tail: Seq<u8>, size: nat)
    requires
        first.len() == size,
        size > 0,
    ensures
        full_chunks(first + tail, size) == seq![first] + full_chunks(tail, size),
        leftover(first + tail, size) == leftover(tail, size),
{
    lemma_full_chunks_append(first, tail, size);
    lemma_one_chunk(first, size);
    assert(leftover(first, size) + tail =~= tail);
}

} // verus!
