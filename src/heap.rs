use vstd::prelude::*;

verus! {

/// Parent slot of slot `i` in a binary heap laid out in a sequence.
pub open spec fn parent(i: int) -> int {
    (i - 1) / 2
}

/// Every slot `i` but `skip` holds a key no smaller than its parent's.
pub open spec fn heap_except(keys: Seq<u128>, f: Seq<usize>, skip: int) -> bool {
    forall|i: int|
        0 < i < f.len() && i != skip ==> keys[f[parent(i)] as int] <= keys[#[trigger] f[i] as int]
}

pub open spec fn heap_ok(keys: Seq<u128>, f: Seq<usize>) -> bool {
    heap_except(keys, f, -1)
}

/// The children of slot `p` hold keys no smaller than the key at the parent
/// of `p` (vacuous at the root).
pub open spec fn bridge(keys: Seq<u128>, f: Seq<usize>, p: int) -> bool {
    p > 0 ==> forall|c: int|
        0 < c < f.len() && parent(c) == p ==> keys[f[parent(p)] as int] <= keys[#[trigger] f[c] as int]
}

/// `pos` records the slot of every entry of `f`, all of them below `n`.
pub open spec fn pos_ok(f: Seq<usize>, pos: Seq<usize>, n: int) -> bool {
    &&& pos.len() == n
    &&& forall|i: int| 0 <= i < f.len() ==> #[trigger] f[i] < n && pos[f[i] as int] == i
}

/// `v` sits in the heap at the slot `pos` records.
pub open spec fn member(f: Seq<usize>, pos: Seq<usize>, v: int) -> bool {
    pos[v] < f.len() && f[pos[v] as int] == v
}

pub open spec fn same_members(f: Seq<usize>, pos: Seq<usize>, g: Seq<usize>, q: Seq<usize>, n: int) -> bool {
    forall|v: int| 0 <= v < n ==> (#[trigger] member(g, q, v) <==> member(f, pos, v))
}

/// The root holds the least key.
pub proof fn lemma_root_min(keys: Seq<u128>, f: Seq<usize>, i: int)
    requires
        heap_ok(keys, f),
        0 <= i < f.len(),
    ensures
        keys[f[0] as int] <= keys[f[i] as int],
    decreases i,
{
    if i > 0 {
        lemma_root_min(keys, f, parent(i));
    }
}

/// Exchanges slots `a` and `b`, keeping `pos` in step.
fn swap_slots(f: &mut Vec<usize>, pos: &mut Vec<usize>, a: usize, b: usize, Ghost(n): Ghost<int>)
    requires
        pos_ok(old(f)@, old(pos)@, n),
        a < old(f)@.len(),
        b < old(f)@.len(),
    ensures
        final(f)@ == old(f)@.update(a as int, old(f)@[b as int]).update(b as int, old(f)@[a as int]),
        pos_ok(final(f)@, final(pos)@, n),
        same_members(old(f)@, old(pos)@, final(f)@, final(pos)@, n),
{
    let ghost f0 = f@;
    let ghost p0 = pos@;
    let x = f[a];
    let y = f[b];
    f.set(a, y);
    f.set(b, x);
    pos.set(x, b);
    pos.set(y, a);
    proof {
        assert forall|i: int| 0 <= i < f@.len() implies #[trigger] f@[i] < n && pos@[f@[i] as int] == i by {
            if i != a && i != b {
                assert(f@[i] == f0[i]);
                assert(p0[f0[i] as int] == i);
            }
        }
        assert forall|v: int| 0 <= v < n implies (#[trigger] member(f@, pos@, v) <==> member(f0, p0, v)) by {
            if v != x && v != y {
                assert(pos@[v] == p0[v]);
                if member(f0, p0, v) {
                    assert(p0[v] != a && p0[v] != b);
                }
            }
        }
    }
}

proof fn lemma_up_step(keys: Seq<u128>, g: Seq<usize>, f: Seq<usize>, p: int, q: int)
    requires
        0 < p < g.len(),
        q == parent(p),
        f == g.update(p, g[q]).update(q, g[p]),
        forall|i: int| 0 <= i < g.len() ==> #[trigger] g[i] < keys.len(),
        keys[g[p] as int] < keys[g[q] as int],
        heap_except(keys, g, p),
        bridge(keys, g, p),
    ensures
        heap_except(keys, f, q),
        bridge(keys, f, q),
{
    assert(0 <= q < p);
    assert forall|i: int| 0 < i < f.len() && i != q implies keys[f[parent(i)] as int] <= keys[#[trigger] f[i] as int] by {
        if i == p {
        } else if parent(i) == p {
            assert(f[i] == g[i]);
        } else if parent(i) == q {
            assert(f[i] == g[i]);
            assert(keys[g[parent(i)] as int] <= keys[g[i] as int]);
        } else {
            assert(f[i] == g[i]);
            assert(f[parent(i)] == g[parent(i)]);
        }
    }
    if q > 0 {
        assert forall|c: int| 0 < c < f.len() && parent(c) == q implies keys[f[parent(q)] as int]
            <= keys[#[trigger] f[c] as int] by {
            assert(f[parent(q)] == g[parent(q)]);
            assert(keys[g[parent(q)] as int] <= keys[g[q] as int]);
            if c != p {
                assert(f[c] == g[c]);
                assert(keys[g[q] as int] <= keys[g[c] as int]);
            }
        }
    }
}

/// Restores heap order after the key at slot `p` shrank or was just placed.
pub fn sift_up(f: &mut Vec<usize>, pos: &mut Vec<usize>, keys: &Vec<u128>, p: usize)
    requires
        pos_ok(old(f)@, old(pos)@, keys@.len() as int),
        p < old(f)@.len(),
        heap_except(keys@, old(f)@, p as int),
        bridge(keys@, old(f)@, p as int),
    ensures
        final(f)@.len() == old(f)@.len(),
        pos_ok(final(f)@, final(pos)@, keys@.len() as int),
        heap_ok(keys@, final(f)@),
        same_members(old(f)@, old(pos)@, final(f)@, final(pos)@, keys@.len() as int),
{
    let ghost n = keys@.len() as int;
    let ghost f0 = f@;
    let ghost p0 = pos@;
    let mut p = p;
    while p > 0
        invariant
            n == keys@.len(),
            f0 == old(f)@,
            p0 == old(pos)@,
            f@.len() == f0.len(),
            p < f@.len(),
            pos_ok(f@, pos@, n),
            heap_except(keys@, f@, p as int),
            bridge(keys@, f@, p as int),
            same_members(f0, p0, f@, pos@, n),
        decreases p,
    {
        let q = (p - 1) / 2;
        if keys[f[p]] >= keys[f[q]] {
            proof {
                assert(heap_except(keys@, f@, -1));
            }
            return;
        }
        let ghost g = f@;
        let ghost gp = pos@;
        swap_slots(f, pos, p, q, Ghost(n));
        proof {
            lemma_up_step(keys@, g, f@, p as int, q as int);
            assert forall|v: int| 0 <= v < n implies (#[trigger] member(f@, pos@, v) <==> member(f0, p0, v)) by {
                assert(member(f@, pos@, v) <==> member(g, gp, v));
            }
        }
        p = q;
    }
}

/// Restores heap order below slot `p` after a larger key was placed there.
pub fn sift_down(f: &mut Vec<usize>, pos: &mut Vec<usize>, keys: &Vec<u128>, p: usize)
    requires
        pos_ok(old(f)@, old(pos)@, keys@.len() as int),
        p < old(f)@.len() || old(f)@.len() == 0,
        forall|i: int|
            0 < i < old(f)@.len() && parent(i) != p ==> keys@[old(f)@[parent(i)] as int] <= keys@[#[trigger] old(
                f,
            )@[i] as int],
        bridge(keys@, old(f)@, p as int),
    ensures
        final(f)@.len() == old(f)@.len(),
        pos_ok(final(f)@, final(pos)@, keys@.len() as int),
        heap_ok(keys@, final(f)@),
        same_members(old(f)@, old(pos)@, final(f)@, final(pos)@, keys@.len() as int),
{
    let ghost n = keys@.len() as int;
    let ghost f0 = f@;
    let ghost p0 = pos@;
    let len = f.len();
    if len == 0 {
        return;
    }
    let mut p = p;
    loop
        invariant
            n == keys@.len(),
            f0 == old(f)@,
            p0 == old(pos)@,
            f@.len() == f0.len(),
            len == f@.len(),
            p < len,
            pos_ok(f@, pos@, n),
            forall|i: int|
                0 < i < f@.len() && parent(i) != p ==> keys@[f@[parent(i)] as int] <= keys@[#[trigger] f@[i] as int],
            bridge(keys@, f@, p as int),
            same_members(f0, p0, f@, pos@, n),
        decreases len - p,
    {
        let ghost l = 2 * p + 1;
        let ghost r = 2 * p + 2;
        let mut m = p;
        if p < len / 2 {
            let c = 2 * p + 1;
            if keys[f[c]] < keys[f[m]] {
                m = c;
            }
        }
        if p < (len - 1) / 2 {
            let c = 2 * p + 2;
            if keys[f[c]] < keys[f[m]] {
                m = c;
            }
        }
        proof {
            assert(l < len <==> p < len / 2);
            assert(r < len <==> p < (len - 1) / 2);
        }
        if m == p {
            proof {
                assert forall|i: int| 0 < i < f@.len() && i != -1 implies keys@[f@[parent(i)] as int]
                    <= keys@[#[trigger] f@[i] as int] by {
                    if parent(i) == p as int {
                        assert(i == l || i == r);
                    }
                }
            }
            return;
        }
        let ghost g = f@;
        let ghost gp = pos@;
        swap_slots(f, pos, p, m, Ghost(n));
        proof {
            assert(parent(m as int) == p as int);
            assert forall|i: int|
                0 < i < f@.len() && parent(i) != m as int implies keys@[f@[parent(i)] as int]
                <= keys@[#[trigger] f@[i] as int] by {
                if i == m as int {
                } else if i == p as int {
                    assert(f@[parent(i)] == g[parent(i)]);
                } else if parent(i) == p as int {
                    assert(i == l || i == r);
                    assert(f@[i] == g[i]);
                } else {
                    assert(f@[i] == g[i]);
                    assert(parent(i) != p as int);
                    assert(f@[parent(i)] == g[parent(i)]);
                }
            }
            assert forall|c: int| 0 < c < f@.len() && parent(c) == m as int implies keys@[f@[parent(
                m as int,
            )] as int] <= keys@[#[trigger] f@[c] as int] by {
                assert(f@[c] == g[c]);
            }
            assert forall|v: int| 0 <= v < n implies (#[trigger] member(f@, pos@, v) <==> member(f0, p0, v)) by {
                assert(member(f@, pos@, v) <==> member(g, gp, v));
            }
        }
        p = m;
    }
}

/// Removes and returns the entry with the least key.
pub fn pop_min(f: &mut Vec<usize>, pos: &mut Vec<usize>, keys: &Vec<u128>) -> (x: usize)
    requires
        pos_ok(old(f)@, old(pos)@, keys@.len() as int),
        heap_ok(keys@, old(f)@),
        old(f)@.len() > 0,
    ensures
        x == old(f)@[0],
        forall|i: int| 0 <= i < old(f)@.len() ==> keys@[x as int] <= keys@[#[trigger] old(f)@[i] as int],
        final(f)@.len() == old(f)@.len() - 1,
        pos_ok(final(f)@, final(pos)@, keys@.len() as int),
        heap_ok(keys@, final(f)@),
        forall|v: int|
            0 <= v < keys@.len() ==> (#[trigger] member(final(f)@, final(pos)@, v) <==> member(
                old(f)@,
                old(pos)@,
                v,
            ) && v != x),
{
    let ghost n = keys@.len() as int;
    let ghost f0 = f@;
    let ghost p0 = pos@;
    proof {
        assert forall|i: int| 0 <= i < f0.len() implies keys@[f0[0] as int] <= keys@[#[trigger] f0[i] as int] by {
            lemma_root_min(keys@, f0, i);
        }
    }
    let x = f[0];
    let last = f.len() - 1;
    if last > 0 {
        swap_slots(f, pos, 0, last, Ghost(n));
    }
    let ghost g = f@;
    let ghost gp = pos@;
    f.pop();
    proof {
        assert(f@ =~= g.drop_last());
        assert(g[last as int] == x);
        assert(gp[x as int] == last);
        assert forall|i: int| 0 <= i < f@.len() implies #[trigger] f@[i] < n && pos@[f@[i] as int] == i by {
            assert(f@[i] == g[i]);
        }
        assert forall|i: int| 0 < i < f@.len() && parent(i) != 0 implies keys@[f@[parent(i)] as int]
            <= keys@[#[trigger] f@[i] as int] by {
            assert(f@[i] == g[i] && f@[i] == f0[i]);
            assert(f@[parent(i)] == f0[parent(i)]);
        }
        assert forall|v: int| 0 <= v < n implies (#[trigger] member(f@, pos@, v) <==> member(g, gp, v)
            && v != x) by {
            if member(g, gp, v) && v != x {
                assert(gp[v] != last);
            }
        }
    }
    if f.len() > 0 {
        sift_down(f, pos, keys, 0);
    }
    x
}

/// Adds `t`, which is not in the heap, keeping heap order.
pub fn insert(f: &mut Vec<usize>, pos: &mut Vec<usize>, keys: &Vec<u128>, t: usize)
    requires
        pos_ok(old(f)@, old(pos)@, keys@.len() as int),
        heap_ok(keys@, old(f)@),
        t < keys@.len(),
        !member(old(f)@, old(pos)@, t as int),
    ensures
        final(f)@.len() == old(f)@.len() + 1,
        pos_ok(final(f)@, final(pos)@, keys@.len() as int),
        heap_ok(keys@, final(f)@),
        forall|v: int|
            0 <= v < keys@.len() ==> (#[trigger] member(final(f)@, final(pos)@, v) <==> member(
                old(f)@,
                old(pos)@,
                v,
            ) || v == t),
{
    let ghost n = keys@.len() as int;
    let ghost f0 = f@;
    let ghost p0 = pos@;
    let len = f.len();
    f.push(t);
    pos.set(t, len);
    proof {
        assert forall|i: int| 0 <= i < f@.len() implies #[trigger] f@[i] < n && pos@[f@[i] as int] == i by {
            if i < len {
                assert(f@[i] == f0[i]);
                assert(f0[i] != t);
            }
        }
        assert forall|i: int| 0 < i < f@.len() && i != len implies keys@[f@[parent(i)] as int]
            <= keys@[#[trigger] f@[i] as int] by {
            assert(f@[i] == f0[i]);
            assert(f@[parent(i)] == f0[parent(i)]);
        }
        assert forall|v: int| 0 <= v < n implies (#[trigger] member(f@, pos@, v) <==> member(f0, p0, v)
            || v == t) by {
            if v != t && member(f0, p0, v) {
                assert(f@[p0[v] as int] == f0[p0[v] as int]);
            }
            if v != t && member(f@, pos@, v) {
                assert(pos@[v] != len);
            }
        }
    }
    let ghost g = f@;
    let ghost gp = pos@;
    sift_up(f, pos, keys, len);
    proof {
        assert forall|v: int| 0 <= v < n implies (#[trigger] member(f@, pos@, v) <==> member(f0, p0, v)
            || v == t) by {
            assert(member(f@, pos@, v) <==> member(g, gp, v));
        }
    }
}

/// Restores heap order after the key of entry `t` decreased.
pub fn decrease_key(f: &mut Vec<usize>, pos: &mut Vec<usize>, keys: &Vec<u128>, t: usize, Ghost(before): Ghost<Seq<u128>>)
    requires
        pos_ok(old(f)@, old(pos)@, keys@.len() as int),
        heap_ok(before, old(f)@),
        before.len() == keys@.len(),
        t < keys@.len(),
        member(old(f)@, old(pos)@, t as int),
        keys@ == before.update(t as int, keys@[t as int]),
        keys@[t as int] <= before[t as int],
    ensures
        final(f)@.len() == old(f)@.len(),
        pos_ok(final(f)@, final(pos)@, keys@.len() as int),
        heap_ok(keys@, final(f)@),
        same_members(old(f)@, old(pos)@, final(f)@, final(pos)@, keys@.len() as int),
{
    let p = pos[t];
    let ghost f0 = f@;
    proof {
        assert forall|i: int| 0 < i < f0.len() && i != p implies keys@[f0[parent(i)] as int]
            <= keys@[#[trigger] f0[i] as int] by {
            assert(f0[i] != t);
            assert(before[f0[parent(i)] as int] <= before[f0[i] as int]);
        }
        if p > 0 {
            assert forall|c: int| 0 < c < f0.len() && parent(c) == p as int implies keys@[f0[parent(
                p as int,
            )] as int] <= keys@[#[trigger] f0[c] as int] by {
                assert(f0[c] != t);
                assert(f0[parent(p as int)] != t);
                assert(before[f0[parent(p as int)] as int] <= before[f0[p as int] as int]);
                assert(before[f0[p as int] as int] <= before[f0[c] as int]);
            }
        }
    }
    sift_up(f, pos, keys, p);
}

/// Appending an entry whose key alone changed leaves heap order broken at
/// most at the new slot.
pub proof fn lemma_push_fresh(before: Seq<u128>, keys: Seq<u128>, f: Seq<usize>, t: usize)
    requires
        heap_ok(before, f),
        t < before.len(),
        keys == before.update(t as int, keys[t as int]),
        forall|i: int| 0 <= i < f.len() ==> #[trigger] f[i] != t && f[i] < before.len(),
    ensures
        heap_except(keys, f.push(t), f.len() as int),
        bridge(keys, f.push(t), f.len() as int),
{
    let g = f.push(t);
    assert forall|i: int| 0 < i < g.len() && i != f.len() implies keys[g[parent(i)] as int]
        <= keys[#[trigger] g[i] as int] by {
        assert(g[i] == f[i] && g[parent(i)] == f[parent(i)]);
        assert(before[f[parent(i)] as int] <= before[f[i] as int]);
    }
}

} // verus!
