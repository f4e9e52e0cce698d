use vstd::prelude::*;

verus! {

/// The positions `i` with `keys[i] == b`, in increasing order.
pub open spec fn bucket(keys: Seq<usize>, b: int) -> Seq<usize>
    decreases keys.len(),
{
    if keys.len() == 0 {
        Seq::empty()
    } else {
        bucket(keys.drop_last(), b) + if keys.last() == b {
            seq![(keys.len() - 1) as usize]
        } else {
            Seq::empty()
        }
    }
}

/// Sum of the first `b` counts.
pub open spec fn total(counts: Seq<usize>, b: int) -> int
    decreases b,
{
    if b <= 0 {
        0
    } else {
        total(counts, b - 1) + counts[b - 1]
    }
}

/// The grouping a stable counting sort produces: `offset` brackets, for
/// every bucket `b < m`, the positions of the keys equal to `b`, in order.
pub open spec fn grouped(keys: Seq<usize>, m: int, offset: Seq<usize>, order: Seq<usize>) -> bool {
    &&& offset.len() == m + 1
    &&& offset[0] == 0
    &&& offset[m] == keys.len()
    &&& order.len() == keys.len()
    &&& forall|x: int, y: int| 0 <= x <= y <= m ==> #[trigger] offset[x] <= #[trigger] offset[y]
    &&& forall|b: int|
        0 <= b < m ==> #[trigger] order.subrange(offset[b] as int, offset[b + 1] as int) == bucket(
            keys,
            b,
        )
}

proof fn lemma_bucket_step(keys: Seq<usize>, i: int, b: int)
    requires
        0 <= i < keys.len(),
    ensures
        bucket(keys.take(i + 1), b) == bucket(keys.take(i), b) + if keys[i] == b {
            seq![i as usize]
        } else {
            Seq::empty()
        },
{
    let t = keys.take(i + 1);
    assert(t.drop_last() =~= keys.take(i));
    assert(t.last() == keys[i]);
}

pub proof fn lemma_bucket_members(keys: Seq<usize>, b: int)
    requires
        keys.len() <= usize::MAX,
    ensures
        forall|j: int|
            0 <= j < bucket(keys, b).len() ==> #[trigger] bucket(keys, b)[j] < keys.len()
                && keys[bucket(keys, b)[j] as int] == b,
    decreases keys.len(),
{
    if keys.len() > 0 {
        let d = keys.drop_last();
        lemma_bucket_members(d, b);
        assert forall|j: int|
            0 <= j < bucket(keys, b).len() implies #[trigger] bucket(keys, b)[j] < keys.len()
            && keys[bucket(keys, b)[j] as int] == b by {
            if j < bucket(d, b).len() {
                assert(bucket(keys, b)[j] == bucket(d, b)[j]);
                assert(keys[bucket(d, b)[j] as int] == d[bucket(d, b)[j] as int]);
            } else {
                assert(keys.last() == b);
                assert(bucket(keys, b)[j] == keys.len() - 1);
            }
        }
    }
}

proof fn lemma_bucket_len(keys: Seq<usize>, b: int)
    ensures
        bucket(keys, b).len() <= keys.len(),
    decreases keys.len(),
{
    if keys.len() > 0 {
        lemma_bucket_len(keys.drop_last(), b);
    }
}

proof fn lemma_total_update(counts: Seq<usize>, k: int, v: usize, b: int)
    requires
        0 <= k < counts.len(),
        0 <= b <= counts.len(),
    ensures
        total(counts.update(k, v), b) == total(counts, b) + if k < b {
            v - counts[k]
        } else {
            0
        },
    decreases b,
{
    if b > 0 {
        lemma_total_update(counts, k, v, b - 1);
    }
}

proof fn lemma_total_zero(counts: Seq<usize>, b: int)
    requires
        0 <= b <= counts.len(),
        forall|j: int| 0 <= j < counts.len() ==> #[trigger] counts[j] == 0,
    ensures
        total(counts, b) == 0,
    decreases b,
{
    if b > 0 {
        lemma_total_zero(counts, b - 1);
    }
}

/// Stable counting sort of positions by key: returns the bucket offsets and
/// the positions grouped by key.
#[verifier::loop_isolation(false)]
pub fn group_by_key(keys: &Vec<usize>, m: usize) -> (r: (Vec<usize>, Vec<usize>))
    requires
        forall|i: int| 0 <= i < keys@.len() ==> #[trigger] keys@[i] < m,
        m < usize::MAX,
    ensures
        grouped(keys@, m as int, r.0@, r.1@),
{
    let n = keys.len();
    let mut counts: Vec<usize> = Vec::new();
    let mut b: usize = 0;
    while b < m
        invariant
            b <= m,
            counts@.len() == b,
            forall|j: int| 0 <= j < b ==> #[trigger] counts@[j] == 0,
        decreases m - b,
    {
        counts.push(0);
        b += 1;
    }
    proof {
        lemma_total_zero(counts@, m as int);
        assert forall|c: int| 0 <= c < m implies #[trigger] counts@[c] == bucket(keys@.take(0), c).len() by {
            assert(keys@.take(0).len() == 0);
        }
    }
    let mut i: usize = 0;
    while i < n
        invariant
            n == keys@.len(),
            i <= n,
            counts@.len() == m,
            forall|j: int| 0 <= j < keys@.len() ==> #[trigger] keys@[j] < m,
            forall|c: int| 0 <= c < m ==> #[trigger] counts@[c] == bucket(keys@.take(i as int), c).len(),
            total(counts@, m as int) == i,
        decreases n - i,
    {
        let k = keys[i];
        proof {
            assert forall|c: int| 0 <= c < m implies bucket(keys@.take(i as int + 1), c).len() == bucket(
                keys@.take(i as int),
                c,
            ).len() + if c == k {
                1int
            } else {
                0int
            } by {
                lemma_bucket_step(keys@, i as int, c);
            }
            lemma_bucket_len(keys@.take(i as int), k as int);
            lemma_total_update(counts@, k as int, (counts@[k as int] + 1) as usize, m as int);
        }
        let c = counts[k];
        counts.set(k, c + 1);
        i += 1;
    }
    proof {
        assert(keys@.take(n as int) =~= keys@);
        assert forall|c: int| 0 <= c < m implies #[trigger] counts@[c] == bucket(keys@, c).len() by {}
    }
    let mut offset: Vec<usize> = Vec::new();
    offset.push(0);
    let mut acc: usize = 0;
    let mut b: usize = 0;
    while b < m
        invariant
            b <= m,
            counts@.len() == m,
            offset@.len() == b + 1,
            offset@[0] == 0,
            acc == offset@[b as int],
            acc == total(counts@, b as int),
            total(counts@, m as int) == n,
            forall|x: int, y: int| 0 <= x <= y <= b ==> #[trigger] offset@[x] <= #[trigger] offset@[y],
            forall|c: int| 0 <= c < b ==> #[trigger] offset@[c + 1] == offset@[c] + counts@[c],
            forall|c: int| 0 <= c <= b ==> #[trigger] offset@[c] == total(counts@, c),
        decreases m - b,
    {
        proof {
            lemma_total_mono(counts@, b as int + 1, m as int);
        }
        acc = acc + counts[b];
        offset.push(acc);
        b += 1;
    }
    let mut pos: Vec<usize> = Vec::new();
    let mut order: Vec<usize> = Vec::new();
    let mut j: usize = 0;
    while j < m
        invariant
            j <= m,
            offset@.len() == m + 1,
            pos@.len() == j,
            forall|c: int| 0 <= c < j ==> #[trigger] pos@[c] == offset@[c],
        decreases m - j,
    {
        pos.push(offset[j]);
        j += 1;
    }
    let mut q: usize = 0;
    while q < n
        invariant
            q <= n,
            order@.len() == q,
        decreases n - q,
    {
        order.push(0);
        q += 1;
    }
    proof {
        assert forall|c: int| 0 <= c < m implies #[trigger] order@.subrange(
            offset@[c] as int,
            pos@[c] as int,
        ) == bucket(keys@.take(0), c) by {
            assert(order@.subrange(offset@[c] as int, pos@[c] as int) =~= Seq::<usize>::empty());
        }
    }
    let mut i: usize = 0;
    while i < n
        invariant
            n == keys@.len(),
            i <= n,
            offset@.len() == m + 1,
            counts@.len() == m,
            pos@.len() == m,
            order@.len() == n,
            offset@[m as int] == n,
            forall|j: int| 0 <= j < keys@.len() ==> #[trigger] keys@[j] < m,
            forall|x: int, y: int| 0 <= x <= y <= m ==> #[trigger] offset@[x] <= #[trigger] offset@[y],
            forall|c: int| 0 <= c < m ==> #[trigger] offset@[c + 1] == offset@[c] + counts@[c],
            forall|c: int| 0 <= c < m ==> #[trigger] counts@[c] == bucket(keys@, c).len(),
            forall|c: int|
                0 <= c < m ==> #[trigger] pos@[c] == offset@[c] + bucket(keys@.take(i as int), c).len(),
            forall|c: int|
                0 <= c < m ==> #[trigger] order@.subrange(offset@[c] as int, pos@[c] as int) == bucket(
                    keys@.take(i as int),
                    c,
                ),
        decreases n - i,
    {
        let k = keys[i];
        proof {
            assert forall|c: int| 0 <= c < m implies bucket(keys@.take(i as int + 1), c) == bucket(
                keys@.take(i as int),
                c,
            ) + if keys@[i as int] == c {
                seq![i as usize]
            } else {
                Seq::empty()
            } by {
                lemma_bucket_step(keys@, i as int, c);
            }
            lemma_bucket_prefix_len(keys@, i as int, k as int);
            assert(pos@[k as int] < offset@[k as int + 1]);
        }
        let p = pos[k];
        let ghost old_order = order@;
        let ghost old_pos = pos@;
        order.set(p, i);
        pos.set(k, p + 1);
        proof {
            assert forall|c: int| 0 <= c < m implies #[trigger] order@.subrange(
                offset@[c] as int,
                pos@[c] as int,
            ) == bucket(keys@.take(i as int + 1), c) by {
                if c == k {
                    assert(order@.subrange(offset@[c] as int, pos@[c] as int) =~= old_order.subrange(
                        offset@[c] as int,
                        old_pos[c] as int,
                    ).push(i));
                } else {
                    lemma_bucket_prefix_len(keys@, i as int, c);
                    assert(pos@[c] == old_pos[c]);
                    assert(old_pos[c] <= offset@[c + 1]);
                    assert(old_pos[c] >= offset@[c]);
                    assert(p >= offset@[k as int]);
                    if c < k {
                        assert(offset@[c + 1] <= offset@[k as int]);
                        assert(old_pos[c] <= p);
                    } else {
                        assert(offset@[k as int + 1] <= offset@[c]);
                        assert(p < offset@[c]);
                    }
                    assert forall|q: int| offset@[c] <= q < old_pos[c] implies order@[q] == old_order[q] by {
                        assert(q != p);
                    }
                    assert(order@.subrange(offset@[c] as int, pos@[c] as int) =~= old_order.subrange(
                        offset@[c] as int,
                        old_pos[c] as int,
                    ));
                }
            }
        }
        i += 1;
    }
    proof {
        assert(keys@.take(n as int) =~= keys@);
        assert forall|c: int| 0 <= c < m implies #[trigger] order@.subrange(
            offset@[c] as int,
            offset@[c + 1] as int,
        ) == bucket(keys@, c) by {
            assert(pos@[c] == offset@[c] + bucket(keys@.take(n as int), c).len());
            assert(order@.subrange(offset@[c] as int, pos@[c] as int) == bucket(
                keys@.take(n as int),
                c,
            ));
            assert(pos@[c] == offset@[c + 1]);
        }
    }
    (offset, order)
}

proof fn lemma_total_mono(counts: Seq<usize>, b: int, m: int)
    requires
        0 <= b <= m <= counts.len(),
    ensures
        total(counts, b) <= total(counts, m),
    decreases m - b,
{
    if b < m {
        lemma_total_mono(counts, b + 1, m);
    }
}

/// A bucket of a prefix is no longer than the bucket of the whole sequence.
proof fn lemma_bucket_prefix_len(keys: Seq<usize>, i: int, b: int)
    requires
        0 <= i <= keys.len(),
    ensures
        bucket(keys.take(i), b).len() <= bucket(keys, b).len(),
        i < keys.len() && keys[i] == b ==> bucket(keys.take(i), b).len() < bucket(keys, b).len(),
    decreases keys.len() - i,
{
    if i < keys.len() {
        lemma_bucket_step(keys, i, b);
        lemma_bucket_prefix_len(keys, i + 1, b);
    } else {
        assert(keys.take(i) =~= keys);
    }
}

} // verus!
