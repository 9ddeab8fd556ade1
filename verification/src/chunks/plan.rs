//! How a file is cut into chunks.

use vstd::prelude::*;

verus! {

/// The number of chunks of `chunk_size` bytes that `file_size` bytes make,
/// the last of them possibly shorter.
pub open spec fn initial_count(file_size: nat, chunk_size: nat) -> nat {
    file_size / chunk_size + if file_size % chunk_size == 0 {
        0nat
    } else {
        1nat
    }
}

/// Twice `size`, or the largest size where that is too much.
pub open spec fn doubled(size: nat) -> nat {
    if size * 2 > usize::MAX {
        usize::MAX as nat
    } else {
        size * 2
    }
}

/// Half of `count`, rounded up.
pub open spec fn half_up(count: nat) -> nat {
    (count + 1) / 2
}

/// Halves `count` and doubles `size` for as long as there is a limit and
/// `count` is above it.
pub open spec fn planned(count: nat, size: nat, max_chunk_count: nat) -> (nat, nat)
    decreases count,
{
    if max_chunk_count > 0 && count > max_chunk_count {
        planned(half_up(count), doubled(size), max_chunk_count)
    } else {
        (count, size)
    }
}

/// The size of the chunks that a file of `file_size` bytes is cut into: the
/// size that was asked for, doubled for as long as there is a limit and the
/// number of chunks is above it.
pub open spec fn planned_size(file_size: nat, chunk_size: nat, max_chunk_count: nat) -> nat {
    planned(initial_count(file_size, chunk_size), chunk_size, max_chunk_count).1
}

/// The number and the size of the chunks that a file of `file_size` bytes is
/// cut into: chunks of the planned size, the last of them possibly shorter.
pub open spec fn chunk_plan(file_size: nat, chunk_size: nat, max_chunk_count: nat) -> (nat, nat) {
    (
        initial_count(file_size, planned_size(file_size, chunk_size, max_chunk_count)),
        planned_size(file_size, chunk_size, max_chunk_count),
    )
}

/// Where chunk `index` begins in a file of `len` bytes.
pub open spec fn piece_start(index: nat, size: nat, len: nat) -> nat {
    if index * size < len {
        index * size
    } else {
        len
    }
}

/// Where chunk `index` of `count` ends in a file of `len` bytes: where the
/// next begins, and the last at the end of the file.
pub open spec fn piece_end(index: nat, count: nat, size: nat, len: nat) -> nat {
    if index + 1 >= count {
        len
    } else {
        piece_start(index + 1, size, len)
    }
}

/// Chunk `index` of the `count` chunks of `data`.
pub open spec fn piece(data: Seq<u8>, index: nat, count: nat, size: nat) -> Seq<u8> {
    data.subrange(
        piece_start(index, size, data.len()) as int,
        piece_end(index, count, size, data.len()) as int,
    )
}

/// A chunk begins before it ends, and both lie in the file.
pub proof fn lemma_piece_bounds(index: nat, count: nat, size: nat, len: nat)
    ensures
        piece_start(index, size, len) <= piece_end(index, count, size, len) <= len,
{
    assert(index * size <= (index + 1) * size) by (nonlinear_arith);
}

/// Without a limit, or with a limit that the number of chunks does not
/// exceed, a file is cut into chunks of the size that was asked for: a file
/// whose size is a multiple of that size into as many chunks as the size
/// goes into it. An empty file is cut into no chunk, whatever the limit.
pub proof fn lemma_plan_without_limit(file_size: nat, chunk_size: nat, max_chunk_count: nat)
    requires
        chunk_size > 0,
    ensures
        max_chunk_count == 0 || initial_count(file_size, chunk_size) <= max_chunk_count
            ==> chunk_plan(file_size, chunk_size, max_chunk_count) == (
            initial_count(file_size, chunk_size),
            chunk_size,
        ),
        (max_chunk_count == 0 || file_size / chunk_size <= max_chunk_count) && file_size
            % chunk_size == 0 ==> chunk_plan(file_size, chunk_size, max_chunk_count).0
            == file_size / chunk_size,
        chunk_plan(0, chunk_size, max_chunk_count).0 == 0,
{
    lemma_plan_covers(0, chunk_size, max_chunk_count);
}

/// As many chunks as a file is counted to make hold the file.
pub proof fn lemma_count_holds(file_size: nat, chunk_size: nat)
    requires
        chunk_size > 0,
    ensures
        file_size <= initial_count(file_size, chunk_size) * chunk_size,
{
    vstd::arithmetic::div_mod::lemma_fundamental_div_mod(file_size as int, chunk_size as int);
    vstd::arithmetic::div_mod::lemma_mod_bound(file_size as int, chunk_size as int);
    let q = file_size / chunk_size;
    assert((q + 1) * chunk_size == q * chunk_size + chunk_size) by (nonlinear_arith);
    assert(chunk_size * q == q * chunk_size) by (nonlinear_arith);
}

/// A file that `count` chunks hold is counted to make no more than `count`.
pub proof fn lemma_count_bound(file_size: nat, chunk_size: nat, count: nat)
    requires
        chunk_size > 0,
        file_size <= count * chunk_size,
    ensures
        initial_count(file_size, chunk_size) <= count,
{
    vstd::arithmetic::div_mod::lemma_fundamental_div_mod(file_size as int, chunk_size as int);
    vstd::arithmetic::div_mod::lemma_mod_bound(file_size as int, chunk_size as int);
    let q = file_size / chunk_size;
    let r = file_size % chunk_size;
    assert(chunk_size * q == q * chunk_size) by (nonlinear_arith);
    if q >= count {
        assert(q * chunk_size >= count * chunk_size) by (nonlinear_arith)
            requires
                q >= count,
        ;
        assert(r == 0);
        assert(q * chunk_size == count * chunk_size);
        if q > count {
            assert(q * chunk_size >= (count + 1) * chunk_size) by (nonlinear_arith)
                requires
                    q >= count + 1,
            ;
            assert((count + 1) * chunk_size == count * chunk_size + chunk_size)
                by (nonlinear_arith);
        }
    }
}

/// Doubling leaves a size above zero.
pub proof fn lemma_planned_size_positive(count: nat, size: nat, max_chunk_count: nat)
    requires
        size > 0,
    ensures
        planned(count, size, max_chunk_count).1 > 0,
    decreases count,
{
    if max_chunk_count > 0 && count > max_chunk_count {
        lemma_planned_size_positive(half_up(count), doubled(size), max_chunk_count);
    }
}

/// Chunks of the size that halving `count` and doubling `size` ends with
/// hold, within the limit, a file that `count` chunks of `size` bytes hold.
pub proof fn lemma_planned_within_limit(
    file_size: nat,
    count: nat,
    size: nat,
    max_chunk_count: nat,
)
    requires
        size > 0,
        max_chunk_count > 0,
        file_size <= usize::MAX,
        initial_count(file_size, size) <= count,
    ensures
        initial_count(file_size, planned(count, size, max_chunk_count).1) <= max_chunk_count,
    decreases count,
{
    if count > max_chunk_count {
        let half = half_up(count);
        let twice = doubled(size);
        assert(2 * half >= count && half >= 1);
        if twice == size * 2 {
            lemma_count_holds(file_size, size);
            let cut = initial_count(file_size, size);
            assert(cut * size <= half * twice) by (nonlinear_arith)
                requires
                    cut <= count,
                    count <= 2 * half,
                    twice == size * 2,
            ;
        } else {
            assert(1 * twice == twice) by (nonlinear_arith);
            assert(half * twice >= twice) by (nonlinear_arith)
                requires
                    half >= 1,
            ;
        }
        lemma_count_bound(file_size, twice, half);
        lemma_planned_within_limit(file_size, half, twice, max_chunk_count);
    }
}

/// With a limit a file is never cut into more chunks than the limit.
pub proof fn lemma_plan_within_limit(file_size: nat, chunk_size: nat, max_chunk_count: nat)
    requires
        chunk_size > 0,
        max_chunk_count > 0,
        file_size <= usize::MAX,
    ensures
        chunk_plan(file_size, chunk_size, max_chunk_count).0 <= max_chunk_count,
{
    lemma_planned_within_limit(
        file_size,
        initial_count(file_size, chunk_size),
        chunk_size,
        max_chunk_count,
    );
}

/// A file that is not empty is cut into one chunk at least, and an empty
/// file into none; the chunks are of a size above zero and hold the file.
pub proof fn lemma_plan_covers(file_size: nat, chunk_size: nat, max_chunk_count: nat)
    requires
        chunk_size > 0,
    ensures
        (chunk_plan(file_size, chunk_size, max_chunk_count).0 == 0) == (file_size == 0),
        chunk_plan(file_size, chunk_size, max_chunk_count).1 > 0,
        file_size <= chunk_plan(file_size, chunk_size, max_chunk_count).0 * chunk_plan(
            file_size,
            chunk_size,
            max_chunk_count,
        ).1,
{
    let size = planned_size(file_size, chunk_size, max_chunk_count);
    lemma_planned_size_positive(
        initial_count(file_size, chunk_size),
        chunk_size,
        max_chunk_count,
    );
    lemma_count_holds(file_size, size);
    if file_size == 0 {
        lemma_count_bound(0, size, 0);
    } else {
        assert(0 * size == 0) by (nonlinear_arith);
    }
}

/// Every chunk but the last has the planned size, and the last is not
/// empty.
pub proof fn lemma_planned_pieces(
    data: Seq<u8>,
    chunk_size: nat,
    max_chunk_count: nat,
    index: nat,
)
    requires
        chunk_size > 0,
        index < chunk_plan(data.len(), chunk_size, max_chunk_count).0,
    ensures
        index + 1 < chunk_plan(data.len(), chunk_size, max_chunk_count).0 ==> piece(
            data,
            index,
            chunk_plan(data.len(), chunk_size, max_chunk_count).0,
            chunk_plan(data.len(), chunk_size, max_chunk_count).1,
        ).len() == chunk_plan(data.len(), chunk_size, max_chunk_count).1,
        0 < piece(
            data,
            index,
            chunk_plan(data.len(), chunk_size, max_chunk_count).0,
            chunk_plan(data.len(), chunk_size, max_chunk_count).1,
        ).len() <= chunk_plan(data.len(), chunk_size, max_chunk_count).1,
{
    let len = data.len();
    let count = chunk_plan(len, chunk_size, max_chunk_count).0;
    let size = chunk_plan(len, chunk_size, max_chunk_count).1;
    lemma_plan_covers(len, chunk_size, max_chunk_count);
    vstd::arithmetic::div_mod::lemma_fundamental_div_mod(len as int, size as int);
    vstd::arithmetic::div_mod::lemma_mod_bound(len as int, size as int);
    let q = len / size;
    assert(size * q == q * size) by (nonlinear_arith);
    // the chunks before the last lie in the file, and the last begins in it
    assert((count - 1) * size < len) by (nonlinear_arith)
        requires
            len == q * size + len % size,
            count == q + if len % size == 0 { 0nat } else { 1nat },
            count > 0,
            size > 0,
            len % size < size,
    ;
    assert(index * size <= (count - 1) * size) by (nonlinear_arith)
        requires
            index <= count - 1,
    ;
    assert((index + 1) * size == index * size + size) by (nonlinear_arith);
    if index + 1 < count {
        assert((index + 1) * size <= (count - 1) * size) by (nonlinear_arith)
            requires
                index + 1 <= count - 1,
        ;
    } else {
        assert(len <= count * size);
        assert(count * size == (count - 1) * size + size) by (nonlinear_arith);
    }
}

/// The first `upto` of the `count` chunks of `data`, one after the other.
pub open spec fn pieces_joined(data: Seq<u8>, count: nat, size: nat, upto: nat) -> Seq<u8>
    decreases upto,
{
    if upto == 0 {
        Seq::empty()
    } else {
        pieces_joined(data, count, size, (upto - 1) as nat) + piece(
            data,
            (upto - 1) as nat,
            count,
            size,
        )
    }
}

/// The chunks of a file, one after the other, are the file up to where the
/// last of them ends.
pub proof fn lemma_pieces_joined(data: Seq<u8>, count: nat, size: nat, upto: nat)
    requires
        upto <= count,
    ensures
        pieces_joined(data, count, size, upto) == data.subrange(
            0,
            if upto == 0 {
                0
            } else {
                piece_end((upto - 1) as nat, count, size, data.len()) as int
            },
        ),
    decreases upto,
{
    if upto == 0 {
        assert(data.subrange(0, 0) =~= Seq::<u8>::empty());
    } else {
        let last = (upto - 1) as nat;
        lemma_pieces_joined(data, count, size, last);
        lemma_piece_bounds(last, count, size, data.len());
        if last == 0 {
            assert(0 * size == 0) by (nonlinear_arith);
            assert(Seq::<u8>::empty() + piece(data, 0, count, size) =~= data.subrange(
                0,
                piece_end(0, count, size, data.len()) as int,
            ));
        } else {
            lemma_piece_bounds((last - 1) as nat, count, size, data.len());
            let middle = piece_start(last, size, data.len()) as int;
            let end = piece_end(last, count, size, data.len()) as int;
            assert(piece_end((last - 1) as nat, count, size, data.len()) == middle);
            assert(data.subrange(0, middle) + data.subrange(middle, end) =~= data.subrange(0, end));
        }
    }
}

/// All the chunks of a file, one after the other, are the file.
pub proof fn lemma_all_pieces_joined(data: Seq<u8>, chunk_size: nat, max_chunk_count: nat)
    requires
        chunk_size > 0,
    ensures
        pieces_joined(
            data,
            chunk_plan(data.len(), chunk_size, max_chunk_count).0,
            chunk_plan(data.len(), chunk_size, max_chunk_count).1,
            chunk_plan(data.len(), chunk_size, max_chunk_count).0,
        ) == data,
{
    let plan = chunk_plan(data.len(), chunk_size, max_chunk_count);
    lemma_plan_covers(data.len(), chunk_size, max_chunk_count);
    lemma_pieces_joined(data, plan.0, plan.1, plan.0);
    assert(data.subrange(0, data.len() as int) =~= data);
    if plan.0 == 0 {
        assert(data.subrange(0, 0) =~= data);
    }
}

/// The number and the size of the chunks that a file of `file_size` bytes is
/// cut into.
pub fn plan_chunks(file_size: usize, chunk_size: usize, max_chunk_count: usize) -> (plan: (
    usize,
    usize,
))
    requires
        chunk_size > 0,
    ensures
        (plan.0 as nat, plan.1 as nat) == chunk_plan(
            file_size as nat,
            chunk_size as nat,
            max_chunk_count as nat,
        ),
{
    let mut count: usize = count_chunks(file_size, chunk_size);
    let mut size: usize = chunk_size;
    if max_chunk_count > 0 {
        while count > max_chunk_count
            invariant
                max_chunk_count > 0,
                size > 0,
                planned(count as nat, size as nat, max_chunk_count as nat).1 == planned_size(
                    file_size as nat,
                    chunk_size as nat,
                    max_chunk_count as nat,
                ),
            decreases count,
        {
            count = count / 2 + count % 2;
            size = if size > usize::MAX / 2 {
                usize::MAX
            } else {
                size * 2
            };
        }
    }
    (count_chunks(file_size, size), size)
}

/// The number of chunks of `chunk_size` bytes that `file_size` bytes make.
pub fn count_chunks(file_size: usize, chunk_size: usize) -> (count: usize)
    requires
        chunk_size > 0,
    ensures
        count == initial_count(file_size as nat, chunk_size as nat),
{
    let whole = file_size / chunk_size;
    if file_size % chunk_size == 0 {
        whole
    } else {
        proof {
            vstd::arithmetic::div_mod::lemma_div_is_ordered_by_denominator(
                file_size as int,
                2,
                chunk_size as int,
            );
        }
        whole + 1
    }
}

/// Where each of the `chunk_count` chunks of a file of `file_size` bytes
/// begins and ends: for every chunk its number, its first byte and the byte
/// behind its last.
pub fn chunk_boundaries(file_size: usize, chunk_size: usize, chunk_count: usize) -> (boundaries:
    Vec<(usize, usize, usize)>)
    ensures
        boundaries@.len() == chunk_count,
        forall|i: int|
            0 <= i < chunk_count ==> (#[trigger] boundaries@[i]).0 == i && boundaries@[i].1
                == piece_start(i as nat, chunk_size as nat, file_size as nat) && boundaries@[i].2
                == piece_end(i as nat, chunk_count as nat, chunk_size as nat, file_size as nat),
{
    let mut boundaries: Vec<(usize, usize, usize)> = Vec::new();
    let mut i: usize = 0;
    let mut start: usize = 0;
    assert(0 * chunk_size == 0) by (nonlinear_arith);
    while i < chunk_count
        invariant
            i <= chunk_count,
            boundaries@.len() == i,
            start == piece_start(i as nat, chunk_size as nat, file_size as nat),
            forall|k: int|
                0 <= k < i ==> (#[trigger] boundaries@[k]).0 == k && boundaries@[k].1
                    == piece_start(k as nat, chunk_size as nat, file_size as nat)
                    && boundaries@[k].2 == piece_end(
                    k as nat,
                    chunk_count as nat,
                    chunk_size as nat,
                    file_size as nat,
                ),
        decreases chunk_count - i,
    {
        let next: usize = match (i + 1).checked_mul(chunk_size) {
            Some(offset) => if offset < file_size {
                offset
            } else {
                file_size
            },
            None => file_size,
        };
        let end: usize = if i + 1 >= chunk_count {
            file_size
        } else {
            next
        };
        boundaries.push((i, start, end));
        start = next;
        i = i + 1;
    }
    boundaries
}

} // verus!
