//! The work chunker: partitions an ordered list of work items into
//! near-equal contiguous chunks.
//!
//! The chunk size is the ceiling of the length over the requested number
//! of chunks; the boundaries come from cutting by that size, so the last
//! chunk may be shorter, and chunk numbers beyond what the cut produces
//! select nothing at all rather than failing.

use crate::errors::Errors;
use vstd::prelude::*;

verus! {

/// The ceiling of `l / n`.
pub open spec fn ceil_div(l: nat, n: nat) -> nat
    recommends
        n > 0,
{
    l / n + if l % n != 0 {
        1nat
    } else {
        0nat
    }
}

/// The half-open item range of the requested chunk, or nothing when the
/// chunk number is beyond the chunks the cut produces.
pub open spec fn chunk_range(len: nat, n_chunks: nat, chunk: nat) -> Option<(nat, nat)>
    recommends
        n_chunks > 0,
        1 <= chunk <= n_chunks,
{
    let size = ceil_div(len, n_chunks);
    if len == 0 || (chunk - 1) * size >= len {
        Option::None
    } else {
        Some(
            (
                ((chunk - 1) * size) as nat,
                if chunk * size > len {
                    len
                } else {
                    (chunk * size) as nat
                },
            ),
        )
    }
}

/// The bounds of one chunk of a list of `len` work items: an error for a
/// chunk number outside `1..=n_chunks`, nothing for a chunk beyond the
/// produced chunks, else the half-open index range.
pub fn chunk_bounds(len: usize, n_chunks: usize, chunk: usize) -> (r: Result<
    Option<(usize, usize)>,
    Errors,
>)
    ensures
        match r {
            Result::Ok(bounds) => 1 <= chunk <= n_chunks && bounds == match chunk_range(
                len as nat,
                n_chunks as nat,
                chunk as nat,
            ) {
                Option::None => Option::None::<(usize, usize)>,
                Option::Some((s, e)) => Some((s as usize, e as usize)),
            },
            Result::Err(e) => !(1 <= chunk <= n_chunks) && e == (Errors::InvalidChunkNumber {
                chunk,
                chunks: n_chunks,
            }),
        },
{
    if chunk < 1 || chunk > n_chunks {
        return Err(Errors::InvalidChunkNumber { chunk, chunks: n_chunks });
    }
    if len == 0 {
        return Ok(None);
    }
    let q = len / n_chunks;
    let size = if len % n_chunks != 0 {
        assert(q < len) by (nonlinear_arith)
            requires
                n_chunks >= 1,
                len >= 1,
                q == len / n_chunks,
                len % n_chunks != 0,
        ;
        q + 1
    } else {
        q
    };
    assert(size == ceil_div(len as nat, n_chunks as nat));
    assert(size >= 1) by (nonlinear_arith)
        requires
            size == len / n_chunks + if len % n_chunks != 0 {
                1int
            } else {
                0int
            },
            n_chunks >= 1,
            len >= 1,
    ;
    assert(size <= len) by (nonlinear_arith)
        requires
            size == len / n_chunks + if len % n_chunks != 0 {
                1int
            } else {
                0int
            },
            n_chunks >= 1,
            len >= 1,
    ;
    // The number of chunks the cut actually produces.
    let q2 = len / size;
    let produced = if len % size != 0 {
        assert(q2 < len) by (nonlinear_arith)
            requires
                size >= 1,
                len >= 1,
                q2 == len / size,
                len % size != 0,
        ;
        q2 + 1
    } else {
        q2
    };
    if chunk - 1 >= produced {
        assert((chunk - 1) * size >= len) by (nonlinear_arith)
            requires
                produced == len / size + if len % size != 0 {
                    1int
                } else {
                    0int
                },
                chunk - 1 >= produced,
                size >= 1,
                len >= 1,
        ;
        return Ok(None);
    }
    assert((chunk - 1) * size < len && (chunk - 1) * size <= len - 1) by (nonlinear_arith)
        requires
            produced == len / size + if len % size != 0 {
                1int
            } else {
                0int
            },
            chunk - 1 < produced,
            size >= 1,
            len >= 1,
    ;
    let start = (chunk - 1) * size;
    let end = if len - start < size {
        len
    } else {
        start + size
    };
    assert(end == if (chunk as nat) * (size as nat) > len {
        len as nat
    } else {
        (chunk as nat) * (size as nat)
    }) by (nonlinear_arith)
        requires
            start == (chunk - 1) * size,
            start < len,
            size >= 1,
            chunk >= 1,
            end == if len - start < size {
                len as int
            } else {
                start + size
            },
    ;
    Ok(Some((start, end)))
}

} // verus!
