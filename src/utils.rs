use vstd::prelude::*;

verus! {

/// Where chunk `k` of a sequence of `len` items ends, for chunks of `size`.
pub open spec fn chunk_end(len: nat, size: nat, k: nat) -> nat {
    if (k + 1) * size < len {
        (k + 1) * size
    } else {
        len
    }
}

/// The consecutive pieces of `values` of `size` items each, the last one
/// shorter when `size` does not divide the length.
pub open spec fn chunked(values: Seq<u32>, size: nat) -> Seq<Seq<u32>> {
    Seq::new(
        ((values.len() + size - 1) as nat) / size,
        |k: int| values.subrange(k * size, chunk_end(values.len(), size, k as nat) as int),
    )
}

/// Splits `values` into consecutive chunks of `chunk_size` items; the last
/// chunk holds what is left.
pub fn chunks(values: Vec<u32>, chunk_size: usize) -> (r: Vec<Vec<u32>>)
    requires
        chunk_size > 0,
    ensures
        r@.len() == chunked(values@, chunk_size as nat).len(),
        forall|k: int| 0 <= k < r@.len() ==> (#[trigger] r@[k])@ == chunked(values@, chunk_size as nat)[k],
{
    let n: usize = values.len();
    let mut r: Vec<Vec<u32>> = Vec::new();
    let mut start: usize = 0;
    let ghost size = chunk_size as nat;
    proof {
        assert(0 * size == 0);
    }
    while start < n
        invariant
            n == values@.len(),
            chunk_size > 0,
            size == chunk_size,
            r@.len() > 0 ==> start == chunk_end(n as nat, size, (r@.len() - 1) as nat),
            r@.len() == 0 ==> start == 0,
            r@.len() == 0 || (r@.len() - 1) * size < n,
            start < n ==> start == r@.len() * size,
            forall|k: int|
                0 <= k < r@.len() ==> (#[trigger] r@[k])@ == values@.subrange(
                    k * size,
                    chunk_end(n as nat, size, k as nat) as int,
                ),
        decreases n - start,
    {
        let ghost k = r@.len();
        let end: usize = if n - start > chunk_size {
            start + chunk_size
        } else {
            n
        };
        proof {
            assert((k + 1) * size == k * size + size) by (nonlinear_arith);
            assert(end == chunk_end(n as nat, size, k as nat));
        }
        let mut chunk: Vec<u32> = Vec::new();
        let mut i: usize = start;
        while i < end
            invariant
                start <= i <= end,
                end <= n,
                n == values@.len(),
                chunk@ == values@.subrange(start as int, i as int),
            decreases end - i,
        {
            chunk.push(values[i]);
            proof {
                assert(values@.subrange(start as int, i + 1) =~= values@.subrange(
                    start as int,
                    i as int,
                ).push(values@[i as int]));
            }
            i = i + 1;
        }
        r.push(chunk);
        start = end;
        proof {
            assert(r@.len() - 1 == k);
        }
    }
    proof {
        if r@.len() > 0 {
            let k = (r@.len() - 1) as nat;
            assert((k + 1) * size == k * size + size) by (nonlinear_arith);
            assert(r@.len() * size >= n);
        } else {
            assert(r@.len() * size == 0);
        }
        assert(r@.len() * size >= n);
    }
    proof {
        let len = ((n + size - 1) as nat) / size;
        assert(r@.len() == len) by (nonlinear_arith)
            requires
                r@.len() * size >= n,
                r@.len() == 0 || (r@.len() - 1) * size < n,
                size > 0,
                len == ((n + size - 1) as nat) / size,
        {
            vstd::arithmetic::div_mod::lemma_fundamental_div_mod((n + size - 1) as int, size as int);
            vstd::arithmetic::div_mod::lemma_mod_pos_bound((n + size - 1) as int, size as int);
            let q = len as int;
            let m = r@.len() as int;
            if m < q {
                assert((m + 1) * size <= q * size);
            } else if m > q {
                assert((m - 1) * size >= q * size);
            }
        }
    }
    r
}

/// The numbers `0` up to `max_value - 1` in consecutive chunks of
/// `chunk_size`.
pub fn chunks_up_to(max_value: u32, chunk_size: usize) -> (r: Vec<Vec<u32>>)
    requires
        chunk_size > 0,
    ensures
        r@.len() == chunked(Seq::new(max_value as nat, |i: int| i as u32), chunk_size as nat).len(),
        forall|k: int|
            0 <= k < r@.len() ==> (#[trigger] r@[k])@ == chunked(
                Seq::new(max_value as nat, |i: int| i as u32),
                chunk_size as nat,
            )[k],
{
    let mut values: Vec<u32> = Vec::new();
    let mut v: u32 = 0;
    while v < max_value
        invariant
            v <= max_value,
            values@ == Seq::new(v as nat, |i: int| i as u32),
        decreases max_value - v,
    {
        values.push(v);
        proof {
            assert(values@ =~= Seq::new((v + 1) as nat, |i: int| i as u32));
        }
        v = v + 1;
    }
    proof {
        assert(values@ =~= Seq::new(max_value as nat, |i: int| i as u32));
    }
    chunks(values, chunk_size)
}

} // verus!
