//! The mathematical model of the strip encoding: a small-step decoder over the
//! strip index sequence, and the predicates that the codec's contracts use.
//!
//! A strip is read with a sliding two-vertex window `(w0, w1)` and a counter
//! `k` of positions consumed since the start of the current run.  Reading one
//! more index `c` either resets the run (restart sentinel), seeds the window
//! (`k < 2`), skips a degenerate connector (repeated vertex), or emits one
//! triangle, with the window order swapped on odd positions to undo the
//! strip's alternating winding.

use vstd::prelude::*;

verus! {

/// Whether strip entry `c` is the restart sentinel under convention `r`
/// (`r == 0` selects degenerate-triangle stitching and reserves no sentinel).
pub open spec fn restart_at(c: u32, r: u32) -> bool {
    r != 0 && c == r
}

/// The triangle (three indices) emitted when the decoder, at run position `k`
/// with window `(w0, w1)`, reads strip entry `c`; empty when the entry is a
/// restart sentinel, a run seed, or part of a degenerate connector.
pub open spec fn step_emit(k: nat, w0: u32, w1: u32, c: u32, r: u32) -> Seq<u32> {
    if restart_at(c, r) {
        Seq::empty()
    } else if k >= 2 {
        let a: u32 = if k % 2 == 1 { w1 } else { w0 };
        let b: u32 = if k % 2 == 1 { w0 } else { w1 };
        if a != b && a != c && b != c {
            seq![a, b, c]
        } else {
            Seq::empty()
        }
    } else {
        Seq::empty()
    }
}

/// The decoder state `(k, w0, w1)` after reading one strip entry `c`.
pub open spec fn step_state(k: nat, w0: u32, w1: u32, c: u32, r: u32) -> (nat, u32, u32) {
    if restart_at(c, r) {
        (0nat, w0, w1)
    } else {
        (k + 1, w1, c)
    }
}

/// The triangle list decoded from strip suffix `s`, starting in state
/// `(k, w0, w1)`.
pub open spec fn dec(s: Seq<u32>, k: nat, w0: u32, w1: u32, r: u32) -> Seq<u32>
    decreases s.len(),
{
    if s.len() == 0 {
        Seq::empty()
    } else {
        let st: (nat, u32, u32) = step_state(k, w0, w1, s[0], r);
        step_emit(k, w0, w1, s[0], r) + dec(s.skip(1), st.0, st.1, st.2, r)
    }
}

/// The decoder state after reading all of strip suffix `s`, starting in state
/// `(k, w0, w1)`.
pub open spec fn dec_state(s: Seq<u32>, k: nat, w0: u32, w1: u32, r: u32) -> (nat, u32, u32)
    decreases s.len(),
{
    if s.len() == 0 {
        (k, w0, w1)
    } else {
        let st: (nat, u32, u32) = step_state(k, w0, w1, s[0], r);
        dec_state(s.skip(1), st.0, st.1, st.2, r)
    }
}

/// The triangle list that strip `s` encodes under restart convention `r`.
pub open spec fn decoded(s: Seq<u32>, r: u32) -> Seq<u32> {
    dec(s, 0nat, 0, 0, r)
}

/// Appending one entry to a strip appends one decode step: the decode of the
/// longer strip is the decode of the shorter one plus whatever the new entry
/// emits from the state the shorter strip ends in.
pub proof fn lemma_dec_push(s: Seq<u32>, c: u32, k: nat, w0: u32, w1: u32, r: u32)
    ensures
        ({
            let st = dec_state(s, k, w0, w1, r);
            &&& dec(s.push(c), k, w0, w1, r) == dec(s, k, w0, w1, r) + step_emit(
                st.0,
                st.1,
                st.2,
                c,
                r,
            )
            &&& dec_state(s.push(c), k, w0, w1, r) == step_state(st.0, st.1, st.2, c, r)
        }),
    decreases s.len(),
{
    if s.len() == 0 {
        let e = step_emit(k, w0, w1, c, r);
        let st1 = step_state(k, w0, w1, c, r);
        assert(s.push(c)[0] == c);
        assert(s.push(c).skip(1) =~= Seq::<u32>::empty());
        assert(dec(s, k, w0, w1, r) == Seq::<u32>::empty());
        assert(dec_state(s, k, w0, w1, r) == (k, w0, w1));
        assert(dec(s.push(c), k, w0, w1, r) == e + dec(s.push(c).skip(1), st1.0, st1.1, st1.2, r));
        assert(dec(s.push(c).skip(1), st1.0, st1.1, st1.2, r) == Seq::<u32>::empty());
        assert(e + Seq::<u32>::empty() =~= Seq::<u32>::empty() + e);
        assert(dec_state(s.push(c), k, w0, w1, r) == dec_state(
            s.push(c).skip(1),
            st1.0,
            st1.1,
            st1.2,
            r,
        ));
    } else {
        let st1 = step_state(k, w0, w1, s[0], r);
        assert(s.push(c)[0] == s[0]);
        assert(s.push(c).skip(1) =~= s.skip(1).push(c));
        lemma_dec_push(s.skip(1), c, st1.0, st1.1, st1.2, r);
        let stm = dec_state(s.skip(1), st1.0, st1.1, st1.2, r);
        assert(dec_state(s, k, w0, w1, r) == stm);
        let e0 = step_emit(k, w0, w1, s[0], r);
        let em = step_emit(stm.0, stm.1, stm.2, c, r);
        let mid = dec(s.skip(1), st1.0, st1.1, st1.2, r);
        assert(dec(s.push(c), k, w0, w1, r) == e0 + dec(
            s.skip(1).push(c),
            st1.0,
            st1.1,
            st1.2,
            r,
        ));
        assert(dec(s.skip(1).push(c), st1.0, st1.1, st1.2, r) == mid + em);
        assert(dec(s, k, w0, w1, r) == e0 + mid);
        assert(e0 + (mid + em) =~= (e0 + mid) + em);
        assert(dec_state(s.push(c), k, w0, w1, r) == dec_state(
            s.skip(1).push(c),
            st1.0,
            st1.1,
            st1.2,
            r,
        ));
    }
}

/// How many further entries a run must consume before a triangle can be
/// emitted: a run seeds two window vertices first.
pub open spec fn seed_need(k: nat) -> int {
    if k >= 2 {
        0
    } else {
        2 - k
    }
}

/// A decode emits whole triangles, at most one per entry past the two seeds.
pub proof fn lemma_dec_len(s: Seq<u32>, k: nat, w0: u32, w1: u32, r: u32)
    ensures
        dec(s, k, w0, w1, r).len() % 3 == 0,
        dec(s, k, w0, w1, r).len() <= 3 * (if s.len() >= seed_need(k) {
            s.len() - seed_need(k)
        } else {
            0
        }),
    decreases s.len(),
{
    if s.len() == 0 {
    } else {
        let st = step_state(k, w0, w1, s[0], r);
        lemma_dec_len(s.skip(1), st.0, st.1, st.2, r);
    }
}

/// `(x, y, z)` is a rotation of triangle `i` of the flat triangle list `t`
/// (the same cycle of vertices, winding preserved).
pub open spec fn rot_of_tri(t: Seq<u32>, i: int, x: u32, y: u32, z: u32) -> bool {
    ||| x == t[3 * i] && y == t[3 * i + 1] && z == t[3 * i + 2]
    ||| x == t[3 * i + 1] && y == t[3 * i + 2] && z == t[3 * i]
    ||| x == t[3 * i + 2] && y == t[3 * i] && z == t[3 * i + 1]
}

/// Triangle `j` of the flat list `d` is a rotation of triangle `j` of `t`.
pub open spec fn tri_rot_of(d: Seq<u32>, t: Seq<u32>, j: int) -> bool {
    rot_of_tri(t, j, d[3 * j], d[3 * j + 1], d[3 * j + 2])
}

/// Triangle `j` of the flat list `t` has three pairwise distinct vertices.
pub open spec fn tri_distinct(t: Seq<u32>, j: int) -> bool {
    &&& t[3 * j] != t[3 * j + 1]
    &&& t[3 * j + 1] != t[3 * j + 2]
    &&& t[3 * j] != t[3 * j + 2]
}

/// The triangle lists whose encoding is exactly reversible: whole triangles,
/// indices inside the vertex space, no degenerate (repeated-vertex) triangle,
/// and, when a restart sentinel is reserved, no index that collides with it.
pub open spec fn valid_triangles(t: Seq<u32>, vertex_count: usize, r: u32) -> bool {
    &&& t.len() % 3 == 0
    &&& (forall|i: int| 0 <= i < t.len() ==> (t[i] as int) < (vertex_count as int))
    &&& (forall|j: int| 0 <= j < t.len() as int / 3 ==> tri_distinct(t, j))
    &&& (r != 0 ==> (forall|i: int| 0 <= i < t.len() ==> t[i] != r))
}

/// Strip `s` decodes back to the triangle list `t`: the same number of
/// triangles, and, triangle by triangle, a rotation of the source triangle.
pub open spec fn strip_decodes_to(s: Seq<u32>, t: Seq<u32>, r: u32) -> bool {
    &&& decoded(s, r).len() == t.len()
    &&& (forall|j: int| 0 <= j < t.len() as int / 3 ==> tri_rot_of(decoded(s, r), t, j))
}

/// Appending one decoded triangle that is a rotation of source triangle `i`
/// extends a triangle-by-triangle match of the first `i` triangles to one of
/// the first `i + 1`.
pub proof fn lemma_decode_extend(d0: Seq<u32>, t: Seq<u32>, i: int, x: u32, y: u32, z: u32)
    requires
        t.len() % 3 == 0,
        0 <= i < t.len() as int / 3,
        d0.len() == 3 * i,
        forall|j: int| 0 <= j < i ==> tri_rot_of(d0, t, j),
        rot_of_tri(t, i, x, y, z),
    ensures
        (d0 + seq![x, y, z]).len() == 3 * (i + 1),
        forall|j: int| 0 <= j < i + 1 ==> tri_rot_of(d0 + seq![x, y, z], t, j),
{
    let d1 = d0 + seq![x, y, z];
    assert forall|j: int| 0 <= j < i + 1 implies tri_rot_of(d1, t, j) by {
        if j < i {
            assert(d1[3 * j] == d0[3 * j]);
            assert(d1[3 * j + 1] == d0[3 * j + 1]);
            assert(d1[3 * j + 2] == d0[3 * j + 2]);
            assert(tri_rot_of(d0, t, j));
        } else {
            assert(d1[3 * i] == x);
            assert(d1[3 * i + 1] == y);
            assert(d1[3 * i + 2] == z);
        }
    }
}

} // verus!
