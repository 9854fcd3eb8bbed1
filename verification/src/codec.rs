//! The executable codec: `stripify` encodes a triangle list into a triangle
//! strip, `unstripify` decodes a strip back into a triangle list.

use crate::model::{
    dec, dec_state, decoded, lemma_dec_len, lemma_dec_push, lemma_decode_extend, restart_at,
    step_emit, step_state, strip_decodes_to, tri_distinct, tri_rot_of, valid_triangles,
};
use vstd::prelude::*;

verus! {

/// Errors reported by the strip codec.
#[derive(Clone, Copy, Debug, PartialEq, Eq, Structural)]
pub enum Error {
    /// The arguments violate a precondition: a triangle-list length that is
    /// not a multiple of three, or a strip too short to hold a triangle.
    InvalidInput,
    /// Defensive variant for an output that would outgrow its worst-case
    /// bound.  The bounds are proved here, so the codec never returns it; it
    /// remains part of the error contract for embedding pipelines.
    CapacityExceeded,
}

/// Builds a strip left to right while tracking the state the decoder would
/// reach after reading everything written so far: the run position `k` and the
/// sliding window `(w0, w1)`.
struct StripWriter {
    out: Vec<u32>,
    k: usize,
    w0: u32,
    w1: u32,
    r: u32,
}

impl StripWriter {
    /// The tracked state is the decoder's state over the written strip.
    spec fn wf(self) -> bool {
        &&& dec_state(self.out@, 0nat, 0, 0, self.r) == (self.k as nat, self.w0, self.w1)
        &&& self.k <= self.out@.len()
    }

    /// The triangle list the written strip decodes to.
    spec fn d(self) -> Seq<u32> {
        dec(self.out@, 0nat, 0, 0, self.r)
    }

    fn new(r: u32) -> (w: StripWriter)
        ensures
            w.wf(),
            w.r == r,
            w.out@.len() == 0,
            w.d() == Seq::<u32>::empty(),
            w.k == 0,
    {
        let w = StripWriter { out: Vec::new(), k: 0, w0: 0, w1: 0, r };
        proof {
            assert(w.out@ =~= Seq::<u32>::empty());
        }
        w
    }

    /// Appends one strip entry and advances the tracked decoder state.
    fn push(&mut self, v: u32)
        requires
            old(self).wf(),
        ensures
            final(self).wf(),
            final(self).r == old(self).r,
            final(self).out@ == old(self).out@.push(v),
            (final(self).k as nat, final(self).w0, final(self).w1) == step_state(
                old(self).k as nat,
                old(self).w0,
                old(self).w1,
                v,
                old(self).r,
            ),
            final(self).d() == old(self).d() + step_emit(
                old(self).k as nat,
                old(self).w0,
                old(self).w1,
                v,
                old(self).r,
            ),
    {
        proof {
            lemma_dec_push(self.out@, v, 0nat, 0, 0, self.r);
        }
        self.out.push(v);
        if self.r != 0 && v == self.r {
            self.k = 0;
        } else {
            let n = self.out.len();
            proof {
                assert(self.k < n);
            }
            self.w0 = self.w1;
            self.w1 = v;
            self.k = self.k + 1;
        }
    }
}

/// Converts a triangle list, previously ordered for vertex-cache locality,
/// into a triangle strip, stitching runs with `restart_index`.
///
/// `restart_index` should be `0xffff` or `0xffffffff` depending on the index
/// size the strip is consumed with, or `0` to stitch with degenerate triangles
/// instead of a sentinel.  Indices are not checked against `vertex_count`;
/// that bound only delimits the vertex space the caller promises to draw from.
///
/// On success the strip holds at most five entries per input triangle, and it
/// decodes back (see [`unstripify`]) to the same triangles, in order, each up
/// to rotation — provided no input triangle repeats a vertex and, when
/// `restart_index` is nonzero, no index collides with it.
pub fn stripify(indices: &[u32], vertex_count: usize, restart_index: u32) -> (res: Result<
    Vec<u32>,
    Error,
>)
    ensures
        match res {
            Ok(out) => {
                &&& indices@.len() % 3 == 0
                &&& out@.len() <= indices@.len() as int / 3 * 5
                &&& (indices@.len() == 0 ==> out@.len() == 0)
                &&& (indices@.len() > 0 ==> out@.len() >= 3)
                &&& (valid_triangles(indices@, vertex_count, restart_index) ==> strip_decodes_to(
                    out@,
                    indices@,
                    restart_index,
                ))
            },
            Err(e) => indices@.len() % 3 != 0 && e == Error::InvalidInput,
        },
{
    let n = indices.len();
    if n % 3 != 0 {
        return Err(Error::InvalidInput);
    }
    let t = n / 3;
    let mut wr = StripWriter::new(restart_index);
    let mut i: usize = 0;
    while i < t
        invariant
            wr.wf(),
            wr.r == restart_index,
            n == indices@.len(),
            n % 3 == 0,
            t == n as int / 3,
            i <= t,
            i == 0 ==> wr.out@.len() == 0,
            i > 0 ==> 3 <= wr.out@.len() && wr.out@.len() <= 5 * i - 2,
            valid_triangles(indices@, vertex_count, restart_index) ==> ({
                &&& wr.d().len() == 3 * i
                &&& (forall|j: int| 0 <= j < i ==> tri_rot_of(wr.d(), indices@, j))
                &&& (i > 0 ==> wr.k >= 2)
            }),
        decreases t - i,
    {
        proof {
            vstd::arithmetic::div_mod::lemma_fundamental_div_mod(n as int, 3);
            assert(3 * (i as int) + 3 <= n as int);
        }
        let a = indices[3 * i];
        let b = indices[3 * i + 1];
        let c = indices[3 * i + 2];
        let ghost d0 = wr.d();
        let ghost valid = valid_triangles(indices@, vertex_count, restart_index);
        proof {
            if valid {
                assert(tri_distinct(indices@, i as int));
                assert(!restart_at(a, restart_index));
                assert(!restart_at(b, restart_index));
                assert(!restart_at(c, restart_index));
            }
        }
        if i == 0 {
            wr.push(a);
            wr.push(b);
            wr.push(c);
            proof {
                if valid {
                    assert(wr.d() =~= d0 + seq![a, b, c]);
                    lemma_decode_extend(d0, indices@, i as int, a, b, c);
                }
            }
        } else {
            let x0 = if wr.k % 2 == 1 {
                wr.w1
            } else {
                wr.w0
            };
            let x1 = if wr.k % 2 == 1 {
                wr.w0
            } else {
                wr.w1
            };
            let distinct = a != b && b != c && a != c;
            if distinct && a == x0 && b == x1 {
                wr.push(c);
                proof {
                    if valid {
                        assert(wr.d() =~= d0 + seq![a, b, c]);
                        lemma_decode_extend(d0, indices@, i as int, a, b, c);
                    }
                }
            } else if distinct && b == x0 && c == x1 {
                wr.push(a);
                proof {
                    if valid {
                        assert(wr.d() =~= d0 + seq![b, c, a]);
                        lemma_decode_extend(d0, indices@, i as int, b, c, a);
                    }
                }
            } else if distinct && c == x0 && a == x1 {
                wr.push(b);
                proof {
                    if valid {
                        assert(wr.d() =~= d0 + seq![c, a, b]);
                        lemma_decode_extend(d0, indices@, i as int, c, a, b);
                    }
                }
            } else if restart_index != 0 {
                wr.push(restart_index);
                wr.push(a);
                wr.push(b);
                wr.push(c);
                proof {
                    assert(restart_at(restart_index, restart_index));
                    if valid {
                        assert(wr.d() =~= d0 + seq![a, b, c]);
                        lemma_decode_extend(d0, indices@, i as int, a, b, c);
                    }
                }
            } else {
                let y = wr.w1;
                let a2 = if wr.k % 2 == 1 {
                    b
                } else {
                    a
                };
                let b2 = if wr.k % 2 == 1 {
                    a
                } else {
                    b
                };
                wr.push(y);
                wr.push(a2);
                wr.push(a2);
                wr.push(b2);
                wr.push(c);
                proof {
                    if valid {
                        assert(wr.d() =~= d0 + seq![a, b, c]);
                        lemma_decode_extend(d0, indices@, i as int, a, b, c);
                    }
                }
            }
        }
        i = i + 1;
    }
    proof {
        vstd::arithmetic::div_mod::lemma_fundamental_div_mod(n as int, 3);
    }
    Ok(wr.out)
}

/// Converts a triangle strip back to a triangle list.
///
/// Entries equal to `restart_index` (when it is nonzero) end the current run;
/// repeated-vertex (degenerate) triples are consumed without emitting a
/// triangle; every other window emits one triangle, with the leading edge
/// swapped on odd run positions to undo the strip's alternating winding.
///
/// A strip shorter than three entries holds no triangle and is rejected as
/// `InvalidInput`.
pub fn unstripify(indices: &[u32], restart_index: u32) -> (res: Result<Vec<u32>, Error>)
    ensures
        match res {
            Ok(out) => {
                &&& indices@.len() >= 3
                &&& out@ == decoded(indices@, restart_index)
                &&& out@.len() % 3 == 0
                &&& out@.len() <= 3 * (indices@.len() - 2)
            },
            Err(e) => indices@.len() < 3 && e == Error::InvalidInput,
        },
{
    let m = indices.len();
    if m < 3 {
        return Err(Error::InvalidInput);
    }
    let mut out: Vec<u32> = Vec::new();
    let mut k: usize = 0;
    let mut w0: u32 = 0;
    let mut w1: u32 = 0;
    let mut i: usize = 0;
    proof {
        assert(indices@.skip(0) =~= indices@);
        assert(Seq::<u32>::empty() + dec(indices@, 0nat, 0, 0, restart_index) =~= dec(
            indices@,
            0nat,
            0,
            0,
            restart_index,
        ));
    }
    while i < m
        invariant
            m == indices@.len(),
            i <= m,
            k <= i,
            decoded(indices@, restart_index) == out@ + dec(
                indices@.skip(i as int),
                k as nat,
                w0,
                w1,
                restart_index,
            ),
        decreases m - i,
    {
        let c = indices[i];
        proof {
            assert(indices@.skip(i as int)[0] == indices@[i as int]);
            assert(indices@.skip(i as int).skip(1) =~= indices@.skip(i as int + 1));
        }
        let ghost suffix = indices@.skip(i as int);
        let ghost rest = dec(
            indices@.skip(i as int + 1),
            step_state(k as nat, w0, w1, c, restart_index).0,
            step_state(k as nat, w0, w1, c, restart_index).1,
            step_state(k as nat, w0, w1, c, restart_index).2,
            restart_index,
        );
        proof {
            assert(dec(suffix, k as nat, w0, w1, restart_index) == step_emit(
                k as nat,
                w0,
                w1,
                c,
                restart_index,
            ) + rest);
        }
        if restart_index != 0 && c == restart_index {
            k = 0;
            proof {
                assert(out@ + (Seq::<u32>::empty() + rest) =~= out@ + rest);
            }
        } else {
            if k >= 2 {
                let x0 = if k % 2 == 1 {
                    w1
                } else {
                    w0
                };
                let x1 = if k % 2 == 1 {
                    w0
                } else {
                    w1
                };
                if x0 != x1 && x0 != c && x1 != c {
                    let ghost out0 = out@;
                    out.push(x0);
                    out.push(x1);
                    out.push(c);
                    proof {
                        assert(out@ =~= out0 + seq![x0, x1, c]);
                        assert(out0 + (seq![x0, x1, c] + rest) =~= (out0 + seq![x0, x1, c])
                            + rest);
                    }
                } else {
                    proof {
                        assert(out@ + (Seq::<u32>::empty() + rest) =~= out@ + rest);
                    }
                }
            } else {
                proof {
                    assert(out@ + (Seq::<u32>::empty() + rest) =~= out@ + rest);
                }
            }
            w0 = w1;
            w1 = c;
            k = k + 1;
        }
        i = i + 1;
    }
    proof {
        assert(indices@.skip(m as int) =~= Seq::<u32>::empty());
        assert(out@ + Seq::<u32>::empty() =~= out@);
        lemma_dec_len(indices@, 0nat, 0, 0, restart_index);
    }
    Ok(out)
}

} // verus!
