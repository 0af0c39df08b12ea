//! The hash table itself: a bucket array of chains and a pair count.

use vstd::prelude::*;
use crate::key::HashKey;
use crate::key::hash_of;
use crate::key::hash_key;

verus! {

/// How many buckets the first growth step creates.
const INITIAL_BUCKETS: usize = 1;

/// A hash table with separate chaining.  Each bucket holds the pairs whose
/// key hashes to its index modulo the bucket count.
pub struct HashMap<K, V> {
    buckets: Vec<Vec<(K, V)>>,
    len: usize,
}

/// The views of one chain's pairs, in their stored order.
spec fn pair_views<K: View, V>(b: Seq<(K, V)>) -> Seq<(<K as View>::V, V)> {
    b.map_values(|p: (K, V)| (p.0@, p.1))
}

/// The views of every chain, in bucket order.
spec fn bucket_views<K: View, V>(bs: Seq<Vec<(K, V)>>) -> Seq<Seq<(<K as View>::V, V)>> {
    bs.map_values(|b: Vec<(K, V)>| pair_views(b@))
}

/// How many pairs the chains from index `i` on hold.
spec fn vtotal<KV, V>(vs: Seq<Seq<(KV, V)>>, i: int) -> int
    decreases vs.len() - i,
{
    if i < 0 || i >= vs.len() {
        0
    } else {
        vs[i].len() + vtotal(vs, i + 1)
    }
}

/// Whether chain `b` holds a pair with key view `kv`.
spec fn vbucket_has<KV, V>(b: Seq<(KV, V)>, kv: KV) -> bool {
    exists|j: int| 0 <= j < b.len() && b[j].0 == kv
}

/// Whether any chain holds a pair with key view `kv`.
spec fn vhas<KV, V>(vs: Seq<Seq<(KV, V)>>, kv: KV) -> bool {
    exists|i: int| 0 <= i < vs.len() && vbucket_has(vs[i], kv)
}

/// The value stored beside key view `kv`, at whichever position holds it.
spec fn vval<KV, V>(vs: Seq<Seq<(KV, V)>>, kv: KV) -> V {
    let (i, j): (int, int) = choose|i: int, j: int|
        0 <= i < vs.len() && 0 <= j < vs[i].len() && (#[trigger] vs[i][j]).0 == kv;
    vs[i][j].1
}

/// Every pair sits in the chain its key hashes to.
spec fn vplaced<K: HashKey, V>(vs: Seq<Seq<(<K as View>::V, V)>>) -> bool {
    forall|i: int, j: int|
        0 <= i < vs.len() && 0 <= j < vs[i].len()
            ==> hash_of::<K>((#[trigger] vs[i][j]).0) as int % vs.len() as int == i
}

/// No chain holds two pairs with the same key view.
spec fn vdistinct<KV, V>(vs: Seq<Seq<(KV, V)>>) -> bool {
    forall|i: int, j1: int, j2: int|
        0 <= i < vs.len() && 0 <= j1 < vs[i].len() && 0 <= j2 < vs[i].len() && j1 != j2
            ==> (#[trigger] vs[i][j1]).0 != (#[trigger] vs[i][j2]).0
}

/// The finite map the chains spell out.
spec fn vmap<KV, V>(vs: Seq<Seq<(KV, V)>>) -> Map<KV, V> {
    Map::new(|kv: KV| vhas(vs, kv), |kv: KV| vval(vs, kv))
}

proof fn lemma_vtotal_nonneg<KV, V>(vs: Seq<Seq<(KV, V)>>, i: int)
    ensures
        vtotal(vs, i) >= 0,
    decreases vs.len() - i,
{
    if 0 <= i && i < vs.len() {
        lemma_vtotal_nonneg(vs, i + 1);
    }
}

proof fn lemma_vtotal_update<KV, V>(vs: Seq<Seq<(KV, V)>>, k: int, b2: Seq<(KV, V)>, i: int)
    requires
        0 <= k < vs.len(),
        0 <= i,
    ensures
        vtotal(vs.update(k, b2), i) == vtotal(vs, i) + (if i <= k {
            b2.len() - vs[k].len()
        } else {
            0int
        }),
    decreases vs.len() - i,
{
    if i < vs.len() {
        lemma_vtotal_update(vs, k, b2, i + 1);
    }
}

proof fn lemma_vtotal_ge_bucket<KV, V>(vs: Seq<Seq<(KV, V)>>, i: int, k: int)
    requires
        0 <= i <= k < vs.len(),
    ensures
        vtotal(vs, i) >= vs[k].len(),
    decreases k - i,
{
    lemma_vtotal_nonneg(vs, i + 1);
    if i < k {
        lemma_vtotal_ge_bucket(vs, i + 1, k);
    }
}

proof fn lemma_vtotal_empty<KV, V>(vs: Seq<Seq<(KV, V)>>, i: int)
    requires
        forall|k: int| 0 <= k < vs.len() ==> vs[k].len() == 0,
    ensures
        vtotal(vs, i) == 0,
    decreases vs.len() - i,
{
    if 0 <= i && i < vs.len() {
        lemma_vtotal_empty(vs, i + 1);
    }
}

/// A key view can only sit in the chain it hashes to.
proof fn lemma_vhas_canonical<K: HashKey, V>(vs: Seq<Seq<(<K as View>::V, V)>>, kv: <K as View>::V)
    requires
        vplaced::<K, V>(vs),
        vs.len() > 0,
    ensures
        vhas(vs, kv) <==> vbucket_has(vs[hash_of::<K>(kv) as int % vs.len() as int], kv),
{
    let c = hash_of::<K>(kv) as int % vs.len() as int;
    if vhas(vs, kv) {
        let i = choose|i: int| 0 <= i < vs.len() && vbucket_has(vs[i], kv);
        let j = choose|j: int| 0 <= j < vs[i].len() && vs[i][j].0 == kv;
        assert(hash_of::<K>(vs[i][j].0) as int % vs.len() as int == i);
        assert(vbucket_has(vs[c], kv));
    }
    if vbucket_has(vs[c], kv) {
        assert(0 <= c < vs.len());
        assert(vhas(vs, kv));
    }
}

/// With placement and distinctness, the value beside a key view is the one
/// at any position that holds that view.
proof fn lemma_vval_at<K: HashKey, V>(vs: Seq<Seq<(<K as View>::V, V)>>, i: int, j: int)
    requires
        vplaced::<K, V>(vs),
        vdistinct(vs),
        0 <= i < vs.len(),
        0 <= j < vs[i].len(),
    ensures
        vval(vs, vs[i][j].0) == vs[i][j].1,
{
    let kv = vs[i][j].0;
    assert(0 <= i < vs.len() && 0 <= j < vs[i].len() && (vs[i][j]).0 == kv);
    let (i0, j0): (int, int) = choose|i0: int, j0: int|
        0 <= i0 < vs.len() && 0 <= j0 < vs[i0].len() && (#[trigger] vs[i0][j0]).0 == kv;
    assert(vs[i0][j0].0 == kv);
    assert(hash_of::<K>(vs[i0][j0].0) as int % vs.len() as int == i0);
    assert(hash_of::<K>(vs[i][j].0) as int % vs.len() as int == i);
    assert(i0 == i);
    assert(j0 == j);
}

/// The pairs from cursor `(i, j)` on: the rest of chain `i`, then the later
/// chains in order.
spec fn suffix_from<KV, V>(vs: Seq<Seq<(KV, V)>>, i: int, j: int) -> Seq<(KV, V)>
    decreases vs.len() - i,
{
    if i < 0 || i >= vs.len() {
        Seq::empty()
    } else {
        vs[i].skip(j) + suffix_from(vs, i + 1, 0)
    }
}

proof fn lemma_suffix_skip<KV, V>(vs: Seq<Seq<(KV, V)>>, i: int)
    requires
        0 <= i < vs.len(),
    ensures
        suffix_from(vs, i, vs[i].len() as int) == suffix_from(vs, i + 1, 0),
{
    assert(vs[i].skip(vs[i].len() as int) =~= Seq::<(KV, V)>::empty());
    assert(suffix_from(vs, i, vs[i].len() as int) =~= suffix_from(vs, i + 1, 0));
}

proof fn lemma_suffix_step<KV, V>(vs: Seq<Seq<(KV, V)>>, i: int, j: int)
    requires
        0 <= i < vs.len(),
        0 <= j < vs[i].len(),
    ensures
        suffix_from(vs, i, j).len() > 0,
        suffix_from(vs, i, j)[0] == vs[i][j],
        suffix_from(vs, i, j).drop_first() == suffix_from(vs, i, j + 1),
{
    assert(vs[i].skip(j).len() == vs[i].len() - j);
    assert(vs[i].skip(j)[0] == vs[i][j]);
    assert(suffix_from(vs, i, j).drop_first() =~= suffix_from(vs, i, j + 1));
}

proof fn lemma_suffix_len<KV, V>(vs: Seq<Seq<(KV, V)>>, i: int)
    requires
        0 <= i,
    ensures
        suffix_from(vs, i, 0).len() == vtotal(vs, i),
    decreases vs.len() - i,
{
    if i < vs.len() {
        lemma_suffix_len(vs, i + 1);
    }
}

/// Every element of a suffix sits at some stored position at or after its
/// start.
proof fn lemma_suffix_elem<KV, V>(vs: Seq<Seq<(KV, V)>>, i: int, j: int, idx: int)
    requires
        0 <= i,
        i < vs.len() ==> 0 <= j <= vs[i].len(),
        i >= vs.len() ==> j == 0,
        0 <= idx < suffix_from(vs, i, j).len(),
    ensures
        exists|a: int, x: int|
            #![trigger vs[a][x]]
            0 <= a < vs.len() && 0 <= x < vs[a].len() && (a > i || (a == i && x >= j))
                && suffix_from(vs, i, j)[idx] == vs[a][x],
    decreases vs.len() - i,
{
    let head = vs[i].skip(j);
    if idx < head.len() {
        assert(suffix_from(vs, i, j)[idx] == vs[i][j + idx]);
        assert(0 <= i < vs.len() && 0 <= j + idx < vs[i].len() && (i > i || (i == i && j + idx
            >= j)) && suffix_from(vs, i, j)[idx] == vs[i][j + idx]);
    } else {
        lemma_suffix_elem(vs, i + 1, 0, idx - head.len());
        let (a, x): (int, int) = choose|a: int, x: int|
            #![trigger vs[a][x]]
            0 <= a < vs.len() && 0 <= x < vs[a].len() && (a > i + 1 || (a == i + 1
                && x >= 0)) && suffix_from(vs, i + 1, 0)[idx - head.len()] == vs[a][x];
        assert(suffix_from(vs, i, j)[idx] == suffix_from(vs, i + 1, 0)[idx - head.len()]);
        assert(0 <= a < vs.len() && 0 <= x < vs[a].len() && (a > i || (a == i && x >= j))
            && suffix_from(vs, i, j)[idx] == vs[a][x]);
    }
}

/// Every stored position at or after a suffix's start appears in it.
proof fn lemma_position_in_suffix<KV, V>(vs: Seq<Seq<(KV, V)>>, i: int, j: int, a: int, x: int)
    requires
        0 <= i,
        i < vs.len() ==> 0 <= j <= vs[i].len(),
        i >= vs.len() ==> j == 0,
        i <= a < vs.len(),
        0 <= x < vs[a].len(),
        a == i ==> x >= j,
    ensures
        exists|idx: int|
            0 <= idx < suffix_from(vs, i, j).len() && #[trigger] suffix_from(vs, i, j)[idx]
                == vs[a][x],
    decreases vs.len() - i,
{
    let head = vs[i].skip(j);
    if a == i {
        assert(suffix_from(vs, i, j)[x - j] == vs[a][x]);
    } else {
        lemma_position_in_suffix(vs, i + 1, 0, a, x);
        let idx = choose|idx: int|
            0 <= idx < suffix_from(vs, i + 1, 0).len() && #[trigger] suffix_from(vs, i + 1, 0)[idx]
                == vs[a][x];
        assert(suffix_from(vs, i, j)[head.len() + idx] == vs[a][x]);
    }
}

/// With placement and distinctness, the keys along a suffix are pairwise
/// distinct.
proof fn lemma_suffix_distinct<K: HashKey, V>(vs: Seq<Seq<(<K as View>::V, V)>>, i: int, j: int)
    requires
        vplaced::<K, V>(vs),
        vdistinct(vs),
        0 <= i,
        i < vs.len() ==> 0 <= j <= vs[i].len(),
        i >= vs.len() ==> j == 0,
    ensures
        forall|x: int, y: int|
            0 <= x < y < suffix_from(vs, i, j).len() ==> (#[trigger] suffix_from(vs, i, j)[x]).0
                != (#[trigger] suffix_from(vs, i, j)[y]).0,
    decreases vs.len() - i,
{
    if 0 <= i && i < vs.len() {
        lemma_suffix_distinct::<K, V>(vs, i + 1, 0);
        let s = suffix_from(vs, i, j);
        let head = vs[i].skip(j);
        let tail = suffix_from(vs, i + 1, 0);
        assert forall|x: int, y: int| 0 <= x < y < s.len() implies (#[trigger] s[x]).0
            != (#[trigger] s[y]).0 by {
            if y < head.len() {
                assert(s[x] == vs[i][j + x]);
                assert(s[y] == vs[i][j + y]);
            } else if x < head.len() {
                assert(s[x] == vs[i][j + x]);
                assert(hash_of::<K>(vs[i][j + x].0) as int % vs.len() as int == i);
                lemma_suffix_elem(vs, i + 1, 0, y - head.len());
                let (a, z): (int, int) = choose|a: int, z: int|
                    #![trigger vs[a][z]]
                    0 <= a < vs.len() && 0 <= z < vs[a].len() && (a > i + 1 || (a
                        == i + 1 && z >= 0)) && suffix_from(vs, i + 1, 0)[y - head.len()]
                        == vs[a][z];
                assert(s[y] == vs[a][z]);
                assert(hash_of::<K>(vs[a][z].0) as int % vs.len() as int == a);
            } else {
                assert(s[x] == tail[x - head.len()]);
                assert(s[y] == tail[y - head.len()]);
            }
        }
    }
}

proof fn lemma_bucket_views_update<K: View, V>(bs: Seq<Vec<(K, V)>>, k: int, nb: Vec<(K, V)>)
    requires
        0 <= k < bs.len(),
    ensures
        bucket_views(bs.update(k, nb)) =~= bucket_views(bs).update(k, pair_views(nb@)),
{
}

proof fn lemma_pair_views_update<K: View, V>(s: Seq<(K, V)>, j: int, p: (K, V))
    requires
        0 <= j < s.len(),
    ensures
        pair_views(s.update(j, p)) =~= pair_views(s).update(j, (p.0@, p.1)),
{
}

proof fn lemma_pair_views_push<K: View, V>(s: Seq<(K, V)>, p: (K, V))
    ensures
        pair_views(s.push(p)) =~= pair_views(s).push((p.0@, p.1)),
{
}

proof fn lemma_pair_views_drop_last<K: View, V>(s: Seq<(K, V)>)
    requires
        s.len() > 0,
    ensures
        pair_views(s.drop_last()) =~= pair_views(s).drop_last(),
{
}

/// Compacting chain `b` by swapping its last pair into slot `j` and dropping
/// the last slot removes exactly the key at `(b, j)` from the spelled-out map.
proof fn lemma_swap_remove_step<K: HashKey, V>(vs: Seq<Seq<(<K as View>::V, V)>>, b: int, j: int)
    requires
        vplaced::<K, V>(vs),
        vdistinct(vs),
        0 <= b < vs.len(),
        0 <= j < vs[b].len(),
    ensures
        ({
            let wv = vs[b].update(j, vs[b].last()).drop_last();
            let vs2 = vs.update(b, wv);
            &&& vplaced::<K, V>(vs2)
            &&& vdistinct(vs2)
            &&& vmap(vs2) =~= vmap(vs).remove(vs[b][j].0)
        }),
{
    let l = vs[b].len() - 1;
    let wv = vs[b].update(j, vs[b].last()).drop_last();
    let vs2 = vs.update(b, wv);
    let kv0 = vs[b][j].0;
    assert forall|x: int| 0 <= x < wv.len() implies wv[x] == vs[b][if x == j {
        l
    } else {
        x
    }] by {}
    assert(vplaced::<K, V>(vs2));
    assert(vdistinct(vs2));
    // no chain of `vs2` holds the removed key
    assert forall|kv: <K as View>::V| #[trigger] vhas(vs2, kv) implies vhas(vs, kv) && kv != kv0 by {
        let i = choose|i: int| 0 <= i < vs2.len() && vbucket_has(vs2[i], kv);
        let x = choose|x: int| 0 <= x < vs2[i].len() && vs2[i][x].0 == kv;
        if i == b {
            let y = if x == j {
                l
            } else {
                x
            };
            assert(vs[b][y].0 == kv);
            assert(vbucket_has(vs[i], kv));
        } else {
            assert(vbucket_has(vs[i], kv));
        }
    }
    // every other key keeps its place and value
    assert forall|kv: <K as View>::V| vhas(vs, kv) && kv != kv0 implies #[trigger] vhas(vs2, kv) by {
        let i = choose|i: int| 0 <= i < vs.len() && vbucket_has(vs[i], kv);
        let y = choose|y: int| 0 <= y < vs[i].len() && vs[i][y].0 == kv;
        if i == b {
            assert(y != j);
            if y == l {
                assert(j < l);
                assert(wv[j] == vs[b][l]);
                assert(vbucket_has(vs2[b], kv));
            } else {
                assert(wv[y] == vs[b][y]);
                assert(vbucket_has(vs2[b], kv));
            }
        } else {
            assert(vbucket_has(vs2[i], kv));
        }
    }
    assert forall|kv: <K as View>::V| #[trigger] vhas(vs2, kv) implies vval(vs2, kv) == vval(
        vs,
        kv,
    ) by {
        let i = choose|i: int| 0 <= i < vs2.len() && vbucket_has(vs2[i], kv);
        let x = choose|x: int| 0 <= x < vs2[i].len() && vs2[i][x].0 == kv;
        lemma_vval_at::<K, V>(vs2, i, x);
        if i == b {
            let y = if x == j {
                l
            } else {
                x
            };
            assert(vs[b][y] == vs2[i][x]);
            lemma_vval_at::<K, V>(vs, b, y);
        } else {
            lemma_vval_at::<K, V>(vs, i, x);
        }
    }
    assert(vmap(vs2) =~= vmap(vs).remove(kv0));
}

/// Appending a pair whose key is absent, to the chain its key hashes to,
/// inserts exactly that pair into the spelled-out map.
proof fn lemma_push_step<K: HashKey, V>(
    vs: Seq<Seq<(<K as View>::V, V)>>,
    b: int,
    p: (<K as View>::V, V),
)
    requires
        vplaced::<K, V>(vs),
        vdistinct(vs),
        0 <= b < vs.len(),
        b == hash_of::<K>(p.0) as int % vs.len() as int,
        !vhas(vs, p.0),
    ensures
        ({
            let vs2 = vs.update(b, vs[b].push(p));
            &&& vplaced::<K, V>(vs2)
            &&& vdistinct(vs2)
            &&& vmap(vs2) =~= vmap(vs).insert(p.0, p.1)
        }),
{
    let wv = vs[b].push(p);
    let vs2 = vs.update(b, wv);
    let l = vs[b].len() as int;
    assert forall|x: int| 0 <= x < wv.len() implies wv[x] == (if x == l {
        p
    } else {
        vs[b][x]
    }) by {}
    assert(vplaced::<K, V>(vs2));
    assert forall|i: int, j1: int, j2: int|
        0 <= i < vs2.len() && 0 <= j1 < vs2[i].len() && 0 <= j2 < vs2[i].len() && j1
            != j2 implies (#[trigger] vs2[i][j1]).0 != (#[trigger] vs2[i][j2]).0 by {
        if i == b {
            if j1 == l {
                assert(vs2[i][j2] == vs[b][j2]);
                if vs[b][j2].0 == p.0 {
                    assert(vbucket_has(vs[b], p.0));
                }
            } else if j2 == l {
                assert(vs2[i][j1] == vs[b][j1]);
                if vs[b][j1].0 == p.0 {
                    assert(vbucket_has(vs[b], p.0));
                }
            }
        }
    }
    assert(vhas(vs2, p.0)) by {
        assert(vs2[b][l].0 == p.0);
        assert(vbucket_has(vs2[b], p.0));
    }
    assert forall|kv: <K as View>::V| #[trigger] vhas(vs2, kv) && kv != p.0 implies vhas(
        vs,
        kv,
    ) by {
        let i = choose|i: int| 0 <= i < vs2.len() && vbucket_has(vs2[i], kv);
        let x = choose|x: int| 0 <= x < vs2[i].len() && vs2[i][x].0 == kv;
        if i == b {
            assert(x != l);
            assert(vs[b][x].0 == kv);
            assert(vbucket_has(vs[i], kv));
        } else {
            assert(vbucket_has(vs[i], kv));
        }
    }
    assert forall|kv: <K as View>::V| #[trigger] vhas(vs, kv) implies vhas(vs2, kv) by {
        let i = choose|i: int| 0 <= i < vs.len() && vbucket_has(vs[i], kv);
        let y = choose|y: int| 0 <= y < vs[i].len() && vs[i][y].0 == kv;
        if i == b {
            assert(vs2[b][y] == vs[b][y]);
            assert(vbucket_has(vs2[b], kv));
        } else {
            assert(vbucket_has(vs2[i], kv));
        }
    }
    assert(vval(vs2, p.0) == p.1) by {
        lemma_vval_at::<K, V>(vs2, b, l);
    }
    assert forall|kv: <K as View>::V| #[trigger] vhas(vs2, kv) && kv != p.0 implies vval(vs2, kv)
        == vval(vs, kv) by {
        let i = choose|i: int| 0 <= i < vs2.len() && vbucket_has(vs2[i], kv);
        let x = choose|x: int| 0 <= x < vs2[i].len() && vs2[i][x].0 == kv;
        lemma_vval_at::<K, V>(vs2, i, x);
        if i == b {
            assert(x != l);
            assert(vs[b][x] == vs2[i][x]);
            lemma_vval_at::<K, V>(vs, b, x);
        } else {
            lemma_vval_at::<K, V>(vs, i, x);
        }
    }
    assert(vmap(vs2) =~= vmap(vs).insert(p.0, p.1));
}

impl<K: HashKey, V> HashMap<K, V> {
    /// The abstract contents: key views mapped to stored values.
    pub closed spec fn contents(self) -> Map<<K as View>::V, V> {
        vmap(bucket_views(self.buckets@))
    }

    /// The stored pair count.
    pub closed spec fn spec_len(self) -> nat {
        self.len as nat
    }

    /// How many buckets the table currently has.
    pub closed spec fn num_buckets(self) -> nat {
        self.buckets@.len()
    }

    /// Well-formedness: the count matches the chains, every pair sits in the
    /// chain its key hashes to, and no key view occurs twice.
    pub closed spec fn wf(self) -> bool {
        &&& self.len as int == vtotal(bucket_views(self.buckets@), 0)
        &&& vplaced::<K, V>(bucket_views(self.buckets@))
        &&& vdistinct(bucket_views(self.buckets@))
    }

    /// An empty table.  No bucket exists until the first insertion.
    pub fn new() -> (m: Self)
        ensures
            m.wf(),
            m.contents() == Map::<<K as View>::V, V>::empty(),
            m.spec_len() == 0,
            m.num_buckets() == 0,
    {
        let m = HashMap { buckets: Vec::new(), len: 0 };
        proof {
            assert(bucket_views(m.buckets@).len() == 0);
            assert(m.contents() =~= Map::<<K as View>::V, V>::empty());
        }
        m
    }

    /// The index of the chain `key` belongs to, or nothing while the table
    /// has no buckets.  A pure function of the key and the bucket count.
    fn get_bucket(&self, key: &K) -> (r: Option<usize>)
        ensures
            r is Some <==> self.buckets@.len() > 0,
            r matches Some(i) ==> i == hash_of::<K>(key@) as int % self.buckets@.len() as int,
    {
        if self.buckets.len() == 0 {
            None
        } else {
            let h = hash_key(key);
            let n64 = self.buckets.len() as u64;
            Some((h % n64) as usize)
        }
    }

    /// Look up `key`: a reference to the stored value, or nothing when no
    /// pair with an equal key view is present.  Does not change the table.
    pub fn get(&self, key: &K) -> (r: Option<&V>)
        requires
            self.wf(),
        ensures
            r matches Some(v) ==> self.contents().contains_key(key@) && *v
                == self.contents()[key@],
            r is None ==> !self.contents().contains_key(key@),
    {
        match self.get_bucket(key) {
            None => {
                proof {
                    assert(!vhas(bucket_views(self.buckets@), key@));
                }
                None
            },
            Some(b) => {
                let ghost vs = bucket_views(self.buckets@);
                proof {
                    assert(0 <= b < self.buckets@.len());
                }
                let mut j: usize = 0;
                while j < self.buckets[b].len()
                    invariant
                        self.wf(),
                        0 <= b < self.buckets@.len(),
                        vs == bucket_views(self.buckets@),
                        b == hash_of::<K>(key@) as int % self.buckets@.len() as int,
                        j <= self.buckets@[b as int]@.len(),
                        forall|jj: int| 0 <= jj < j ==> vs[b as int][jj].0 != key@,
                    decreases self.buckets@[b as int]@.len() - j,
                {
                    let p = &self.buckets[b][j];
                    if p.0.key_eq(key) {
                        proof {
                            assert(vs[b as int][j as int].0 == key@);
                            assert(vhas(vs, key@));
                            lemma_vval_at::<K, V>(vs, b as int, j as int);
                            assert(self.contents().contains_key(key@));
                            assert(self.contents()[key@] == vs[b as int][j as int].1);
                        }
                        return Some(&p.1);
                    }
                    j += 1;
                }
                proof {
                    assert(!vbucket_has(vs[b as int], key@));
                    lemma_vhas_canonical::<K, V>(vs, key@);
                    assert(!self.contents().contains_key(key@));
                }
                None
            },
        }
    }

    /// Insert `value` under `key`.  When a pair with an equal key view is
    /// already present, its value is replaced and the old one handed back,
    /// the count unchanged; otherwise the pair is appended to its chain and
    /// the count rises by one.  Before the slot is located, the table grows
    /// if it has no bucket yet or more pairs than three quarters of the
    /// bucket count, so the chains stay short.
    ///
    /// The bound on the count leaves the growth arithmetic room in `usize`.
    pub fn insert(&mut self, key: K, value: V) -> (prev: Option<V>)
        requires
            old(self).wf(),
            old(self).spec_len() <= usize::MAX as nat / 4,
        ensures
            final(self).wf(),
            final(self).contents() == old(self).contents().insert(key@, value),
            final(self).num_buckets() > 0,
            final(self).num_buckets() >= old(self).num_buckets(),
            old(self).contents().contains_key(key@) ==> (prev matches Some(v) && v == old(
                self,
            ).contents()[key@] && final(self).spec_len() == old(self).spec_len()),
            !old(self).contents().contains_key(key@) ==> prev is None && final(self).spec_len()
                == old(self).spec_len() + 1,
    {
        if self.buckets.len() == 0 || (self.len as u128) > 3 * (self.buckets.len() as u128) / 4 {
            proof {
                if self.buckets@.len() != 0 {
                    assert(4 * (self.len as int) >= 3 * self.buckets@.len() + 1);
                }
                assert(2 * self.buckets@.len() <= usize::MAX);
            }
            self.resize_buckets();
        }
        let ghost vs = bucket_views(self.buckets@);
        let ghost mid = *self;
        let b = match self.get_bucket(&key) {
            Some(b) => b,
            None => unreached(),
        };
        let mut j: usize = 0;
        while j < self.buckets[b].len()
            invariant
                self.wf(),
                *self == mid,
                mid.contents() == old(self).contents(),
                mid.spec_len() == old(self).spec_len(),
                mid.num_buckets() >= old(self).num_buckets(),
                old(self).spec_len() <= usize::MAX as nat / 4,
                0 <= b < self.buckets@.len(),
                vs == bucket_views(self.buckets@),
                b == hash_of::<K>(key@) as int % self.buckets@.len() as int,
                j <= self.buckets@[b as int]@.len(),
                forall|jj: int| 0 <= jj < j ==> vs[b as int][jj].0 != key@,
            decreases self.buckets@[b as int]@.len() - j,
        {
            if self.buckets[b][j].0.key_eq(&key) {
                proof {
                    assert(vs[b as int][j as int].0 == key@);
                    assert(vhas(vs, key@));
                    lemma_vval_at::<K, V>(vs, b as int, j as int);
                }
                let ghost bs1 = self.buckets@;
                let ghost chain1 = self.buckets@[b as int]@;
                let pr = self.buckets[b].swap_remove(j);
                proof {
                    let wv = vs[b as int].update(j as int, vs[b as int].last()).drop_last();
                    lemma_pair_views_update(chain1, j as int, chain1.last());
                    lemma_pair_views_drop_last(chain1.update(j as int, chain1.last()));
                    lemma_bucket_views_update(bs1, b as int, self.buckets@[b as int]);
                    assert(self.buckets@ == bs1.update(b as int, self.buckets@[b as int]));
                    assert(bucket_views(self.buckets@) =~= vs.update(b as int, wv));
                    lemma_swap_remove_step::<K, V>(vs, b as int, j as int);
                    lemma_vtotal_update(vs, b as int, wv, 0);
                }
                let (k0, old_v) = pr;
                let ghost vs2 = bucket_views(self.buckets@);
                let ghost bs2 = self.buckets@;
                self.buckets[b].push((k0, value));
                proof {
                    let q = (k0@, value);
                    lemma_pair_views_push(bs2[b as int]@, (k0, value));
                    lemma_bucket_views_update(bs2, b as int, self.buckets@[b as int]);
                    assert(self.buckets@ == bs2.update(b as int, self.buckets@[b as int]));
                    assert(bucket_views(self.buckets@) =~= vs2.update(
                        b as int,
                        vs2[b as int].push(q),
                    ));
                    assert(k0@ == key@);
                    assert(!vhas(vs2, key@)) by {
                        assert(vmap(vs2) =~= vmap(vs).remove(key@));
                        assert(!vmap(vs2).dom().contains(key@));
                    }
                    lemma_push_step::<K, V>(vs2, b as int, q);
                    lemma_vtotal_update(vs2, b as int, vs2[b as int].push(q), 0);
                    assert(self.contents() =~= mid.contents().insert(key@, value));
                    assert(mid.contents().insert(key@, value) =~= old(self).contents().insert(
                        key@,
                        value,
                    ));
                }
                return Some(old_v);
            }
            j += 1;
        }
        proof {
            assert(!vbucket_has(vs[b as int], key@));
            lemma_vhas_canonical::<K, V>(vs, key@);
            assert(!mid.contents().contains_key(key@));
        }
        let ghost bs1 = self.buckets@;
        self.buckets[b].push((key, value));
        self.len = self.len + 1;
        proof {
            let q = (key@, value);
            lemma_pair_views_push(bs1[b as int]@, (key, value));
            lemma_bucket_views_update(bs1, b as int, self.buckets@[b as int]);
            assert(self.buckets@ == bs1.update(b as int, self.buckets@[b as int]));
            assert(bucket_views(self.buckets@) =~= vs.update(b as int, vs[b as int].push(q)));
            lemma_push_step::<K, V>(vs, b as int, q);
            lemma_vtotal_update(vs, b as int, vs[b as int].push(q), 0);
            assert(self.contents() =~= mid.contents().insert(key@, value));
            assert(mid.contents().insert(key@, value) =~= old(self).contents().insert(
                key@,
                value,
            ));
        }
        None
    }

    /// Grow the bucket array — to one bucket from none, else to twice as
    /// many — and rehash every pair into the chain its key now belongs to.
    /// Every pair is conserved with its value, and the count is untouched.
    fn resize_buckets(&mut self)
        requires
            old(self).wf(),
            2 * old(self).buckets@.len() <= usize::MAX,
        ensures
            final(self).wf(),
            final(self).contents() == old(self).contents(),
            final(self).spec_len() == old(self).spec_len(),
            final(self).buckets@.len() == (if old(self).buckets@.len() == 0 {
                1int
            } else {
                2 * old(self).buckets@.len() as int
            }),
    {
        let n = self.buckets.len();
        let target: usize = if n == 0 {
            INITIAL_BUCKETS
        } else {
            n * 2
        };
        let mut new_buckets: Vec<Vec<(K, V)>> = Vec::with_capacity(target);
        while new_buckets.len() < target
            invariant
                new_buckets@.len() <= target,
                forall|k: int| 0 <= k < new_buckets@.len() ==> new_buckets@[k]@.len() == 0,
            decreases target - new_buckets.len(),
        {
            new_buckets.push(Vec::new());
        }
        let ghost ovs = bucket_views(old(self).buckets@);
        proof {
            lemma_vtotal_empty(bucket_views(new_buckets@), 0);
            assert forall|kv: <K as View>::V| !(#[trigger] vhas(
                bucket_views(new_buckets@),
                kv,
            )) by {
                if vhas(bucket_views(new_buckets@), kv) {
                    let i = choose|i: int|
                        0 <= i < bucket_views(new_buckets@).len() && vbucket_has(
                            bucket_views(new_buckets@)[i],
                            kv,
                        );
                    assert(vbucket_has(bucket_views(new_buckets@)[i], kv));
                }
            }
            assert(vmap(ovs) =~= vmap(bucket_views(self.buckets@)).union_prefer_right(
                vmap(bucket_views(new_buckets@)),
            ));
            assert(vmap(bucket_views(self.buckets@)).dom().disjoint(
                vmap(bucket_views(new_buckets@)).dom(),
            ));
        }
        let mut i: usize = 0;
        while i < n
            invariant
                old(self).wf(),
                self.len == old(self).len,
                n as int == old(self).buckets@.len(),
                self.buckets@.len() == n as int,
                target as int == (if n == 0 {
                    1int
                } else {
                    2 * n as int
                }),
                target > 0,
                2 * old(self).buckets@.len() <= usize::MAX,
                new_buckets@.len() == target as int,
                ovs == bucket_views(old(self).buckets@),
                i <= n,
                forall|k: int|
                    0 <= k < i ==> #[trigger] bucket_views(self.buckets@)[k].len() == 0,
                forall|k: int|
                    0 <= k < n ==> (#[trigger] bucket_views(self.buckets@)[k]).is_prefix_of(
                        ovs[k],
                    ),
                vplaced::<K, V>(bucket_views(self.buckets@)),
                vdistinct(bucket_views(self.buckets@)),
                vplaced::<K, V>(bucket_views(new_buckets@)),
                vdistinct(bucket_views(new_buckets@)),
                vtotal(bucket_views(self.buckets@), 0) + vtotal(bucket_views(new_buckets@), 0)
                    == self.len as int,
                vmap(ovs) =~= vmap(bucket_views(self.buckets@)).union_prefer_right(
                    vmap(bucket_views(new_buckets@)),
                ),
                vmap(bucket_views(self.buckets@)).dom().disjoint(
                    vmap(bucket_views(new_buckets@)).dom(),
                ),
            decreases n - i,
        {
            while self.buckets[i].len() > 0
                invariant
                    old(self).wf(),
                    self.len == old(self).len,
                    n as int == old(self).buckets@.len(),
                    self.buckets@.len() == n as int,
                    target as int == (if n == 0 {
                        1int
                    } else {
                        2 * n as int
                    }),
                    target > 0,
                    new_buckets@.len() == target as int,
                    ovs == bucket_views(old(self).buckets@),
                    i < n,
                    forall|k: int|
                        0 <= k < i ==> #[trigger] bucket_views(self.buckets@)[k].len() == 0,
                    forall|k: int|
                        0 <= k < n ==> (#[trigger] bucket_views(self.buckets@)[k]).is_prefix_of(
                            ovs[k],
                        ),
                    vplaced::<K, V>(bucket_views(self.buckets@)),
                    vdistinct(bucket_views(self.buckets@)),
                    vplaced::<K, V>(bucket_views(new_buckets@)),
                    vdistinct(bucket_views(new_buckets@)),
                    vtotal(bucket_views(self.buckets@), 0) + vtotal(
                        bucket_views(new_buckets@),
                        0,
                    ) == self.len as int,
                    vmap(ovs) =~= vmap(bucket_views(self.buckets@)).union_prefer_right(
                        vmap(bucket_views(new_buckets@)),
                    ),
                    vmap(bucket_views(self.buckets@)).dom().disjoint(
                        vmap(bucket_views(new_buckets@)).dom(),
                    ),
                decreases self.buckets@[i as int]@.len(),
            {
                let ghost cvs = bucket_views(self.buckets@);
                let ghost nvs = bucket_views(new_buckets@);
                let ghost bs0 = self.buckets@;
                let ghost chain0 = self.buckets@[i as int]@;
                let ghost l = chain0.len() - 1;
                let popt = self.buckets[i].pop();
                let p = match popt {
                    Some(p) => p,
                    None => unreached(),
                };
                proof {
                    assert(cvs[i as int][l] == (p.0@, p.1));
                    lemma_vval_at::<K, V>(cvs, i as int, l);
                    assert(vbucket_has(cvs[i as int], p.0@));
                    assert(vhas(cvs, p.0@));
                    assert(vmap(cvs).dom().contains(p.0@));
                    assert(!vmap(nvs).dom().contains(p.0@));
                    assert(!vhas(nvs, p.0@));
                }
                let h = hash_key(&p.0);
                let nb = (h % (target as u64)) as usize;
                let ghost kvp = p.0@;
                let ghost vp = p.1;
                let ghost nbs0 = new_buckets@;
                new_buckets[nb].push(p);
                proof {
                    // the drained chain lost its last pair
                    let wv = cvs[i as int].update(l, cvs[i as int].last()).drop_last();
                    assert(wv =~= cvs[i as int].drop_last());
                    assert(self.buckets@[i as int]@ =~= chain0.drop_last());
                    lemma_pair_views_drop_last(chain0);
                    assert(pair_views(self.buckets@[i as int]@) == pair_views(
                        chain0,
                    ).drop_last());
                    lemma_bucket_views_update(bs0, i as int, self.buckets@[i as int]);
                    assert(self.buckets@ == bs0.update(i as int, self.buckets@[i as int]));
                    let cvs2 = cvs.update(i as int, wv);
                    assert(bucket_views(self.buckets@) =~= cvs2);
                    lemma_swap_remove_step::<K, V>(cvs, i as int, l);
                    lemma_vtotal_update(cvs, i as int, wv, 0);
                    // the chain the key now hashes to gained it
                    let nvs2 = nvs.update(nb as int, nvs[nb as int].push((kvp, vp)));
                    lemma_push_step::<K, V>(nvs, nb as int, (kvp, vp));
                    assert(new_buckets@[nb as int]@ =~= nbs0[nb as int]@.push((p.0, p.1)));
                    lemma_pair_views_push(nbs0[nb as int]@, (p.0, p.1));
                    lemma_bucket_views_update(nbs0, nb as int, new_buckets@[nb as int]);
                    assert(new_buckets@ == nbs0.update(nb as int, new_buckets@[nb as int]));
                    assert(bucket_views(new_buckets@) =~= nvs2);
                    lemma_vtotal_update(nvs, nb as int, nvs[nb as int].push((kvp, vp)), 0);
                    // the union of the two halves is unchanged
                    assert(vval(cvs, kvp) == vp);
                    assert(vmap(cvs)[kvp] == vp);
                    assert(vmap(cvs2) =~= vmap(cvs).remove(kvp));
                    assert(vmap(nvs2) =~= vmap(nvs).insert(kvp, vp));
                    assert(vmap(cvs2).union_prefer_right(vmap(nvs2)) =~= vmap(
                        cvs,
                    ).union_prefer_right(vmap(nvs)));
                    assert(vmap(ovs) =~= vmap(bucket_views(self.buckets@)).union_prefer_right(
                        vmap(bucket_views(new_buckets@)),
                    ));
                    assert(vmap(cvs2).dom().disjoint(vmap(nvs2).dom()));
                    // the shortened chain is still a prefix of its original
                    assert forall|k: int|
                        0 <= k < n implies (#[trigger] bucket_views(self.buckets@)[
                    k]).is_prefix_of(ovs[k]) by {
                        if k == i as int {
                            assert(cvs2[k] =~= cvs[k].drop_last());
                            assert(cvs[k].is_prefix_of(ovs[k]));
                        } else {
                            assert(cvs2[k] == cvs[k]);
                        }
                    }
                }
            }
            i += 1;
        }
        let ghost nvs_fin = bucket_views(new_buckets@);
        proof {
            assert forall|kv: <K as View>::V| !(#[trigger] vhas(
                bucket_views(self.buckets@),
                kv,
            )) by {
                if vhas(bucket_views(self.buckets@), kv) {
                    let k = choose|k: int|
                        0 <= k < bucket_views(self.buckets@).len() && vbucket_has(
                            bucket_views(self.buckets@)[k],
                            kv,
                        );
                    assert(vbucket_has(bucket_views(self.buckets@)[k], kv));
                }
            }
            lemma_vtotal_empty(bucket_views(self.buckets@), 0);
            assert(vmap(nvs_fin) =~= vmap(ovs));
            assert(vtotal(nvs_fin, 0) == self.len as int);
        }
        self.buckets = new_buckets;
        proof {
            assert(bucket_views(self.buckets@) == nvs_fin);
            assert(self.contents() =~= old(self).contents());
        }
    }

    /// Remove the pair whose key view equals `key`'s, handing the stored key
    /// and value back.  The chain is compacted by swapping its last pair into
    /// the gap, so chain order may change.  The bucket array never shrinks.
    pub fn remove(&mut self, key: &K) -> (r: Option<(K, V)>)
        requires
            old(self).wf(),
        ensures
            final(self).wf(),
            final(self).contents() == old(self).contents().remove(key@),
            final(self).num_buckets() == old(self).num_buckets(),
            old(self).contents().contains_key(key@) ==> (r matches Some(p) && p.0@ == key@ && p.1
                == old(self).contents()[key@] && final(self).spec_len() + 1 == old(
                self,
            ).spec_len()),
            !old(self).contents().contains_key(key@) ==> r is None && *final(self) == *old(self),
    {
        let ghost vs = bucket_views(self.buckets@);
        match self.get_bucket(key) {
            None => {
                proof {
                    assert(!vhas(vs, key@));
                    assert(old(self).contents().remove(key@) =~= old(self).contents());
                }
                None
            },
            Some(b) => {
                let mut j: usize = 0;
                while j < self.buckets[b].len()
                    invariant
                        self.wf(),
                        *self == *old(self),
                        0 <= b < self.buckets@.len(),
                        vs == bucket_views(self.buckets@),
                        b == hash_of::<K>(key@) as int % self.buckets@.len() as int,
                        j <= self.buckets@[b as int]@.len(),
                        forall|jj: int| 0 <= jj < j ==> vs[b as int][jj].0 != key@,
                    decreases self.buckets@[b as int]@.len() - j,
                {
                    if self.buckets[b][j].0.key_eq(key) {
                        proof {
                            assert(vs[b as int][j as int].0 == key@);
                            assert(vhas(vs, key@));
                            lemma_vval_at::<K, V>(vs, b as int, j as int);
                            lemma_vtotal_ge_bucket(vs, 0, b as int);
                            lemma_vtotal_nonneg(vs, 0);
                        }
                        self.len = self.len - 1;
                        let p = self.buckets[b].swap_remove(j);
                        proof {
                            let wv = vs[b as int].update(j as int, vs[b as int].last()).drop_last();
                            lemma_pair_views_update(
                                old(self).buckets@[b as int]@,
                                j as int,
                                old(self).buckets@[b as int]@.last(),
                            );
                            lemma_pair_views_drop_last(
                                old(self).buckets@[b as int]@.update(
                                    j as int,
                                    old(self).buckets@[b as int]@.last(),
                                ),
                            );
                            lemma_bucket_views_update(
                                old(self).buckets@,
                                b as int,
                                self.buckets@[b as int],
                            );
                            assert(bucket_views(self.buckets@) =~= vs.update(b as int, wv));
                            lemma_swap_remove_step::<K, V>(vs, b as int, j as int);
                            lemma_vtotal_update(vs, b as int, wv, 0);
                            assert(self.contents() =~= old(self).contents().remove(key@));
                        }
                        return Some(p);
                    }
                    j += 1;
                }
                proof {
                    assert(!vbucket_has(vs[b as int], key@));
                    lemma_vhas_canonical::<K, V>(vs, key@);
                    assert(!old(self).contents().contains_key(key@));
                    assert(old(self).contents().remove(key@) =~= old(self).contents());
                }
                None
            },
        }
    }

    /// Whether a pair with `key`'s view is present: exactly when `get`
    /// yields a value.
    pub fn contains_key(&self, key: &K) -> (r: bool)
        requires
            self.wf(),
        ensures
            r == self.contents().contains_key(key@),
    {
        self.get(key).is_some()
    }

    /// The stored pair count: the number of distinct keys present.
    pub fn len(&self) -> (n: usize)
        requires
            self.wf(),
        ensures
            n == self.spec_len(),
            self.contents().dom().finite(),
            n == self.contents().dom().len(),
    {
        proof {
            self.lemma_len_is_key_count();
        }
        self.len
    }

    /// Whether the table holds no pair.
    pub fn is_empty(&self) -> (e: bool)
        requires
            self.wf(),
        ensures
            e == (self.spec_len() == 0),
            e == (self.contents().dom().len() == 0),
    {
        proof {
            self.lemma_len_is_key_count();
        }
        self.len == 0
    }
}

/// An iterator's cursor: a bucket index and a position inside that bucket.
pub struct Iter<'a, K, V> {
    map: &'a HashMap<K, V>,
    bucket: usize,
    at: usize,
}

impl<K: HashKey, V> HashMap<K, V> {
    /// The pairs in traversal order: bucket index ascending, then position
    /// inside the chain ascending, as currently stored.
    pub closed spec fn kv_seq(self) -> Seq<(<K as View>::V, V)> {
        suffix_from(bucket_views(self.buckets@), 0, 0)
    }

    /// A fresh iterator over the pairs.  The traversal order is not the
    /// insertion order, and a mutation invalidates the cursor.
    pub fn iter<'a>(&'a self) -> (it: Iter<'a, K, V>)
        ensures
            it.wf(),
            it.table() == *self,
            it.remaining() == self.kv_seq(),
    {
        Iter { map: self, bucket: 0, at: 0 }
    }
}

impl<'a, K: HashKey, V> Iter<'a, K, V> {
    /// The table being walked.
    pub closed spec fn table(self) -> HashMap<K, V> {
        *self.map
    }

    /// The cursor sits inside the bucket array, not past its chain's end.
    pub closed spec fn wf(self) -> bool {
        let vs = bucket_views(self.map.buckets@);
        &&& self.bucket <= vs.len()
        &&& (self.bucket < vs.len() ==> self.at <= vs[self.bucket as int].len())
        &&& (self.bucket == vs.len() ==> self.at == 0)
    }

    /// The pairs not yet yielded, in the order they will come.
    pub closed spec fn remaining(self) -> Seq<(<K as View>::V, V)> {
        suffix_from(bucket_views(self.map.buckets@), self.bucket as int, self.at as int)
    }

    /// The next pair, advancing the cursor; nothing once every pair has been
    /// yielded.
    pub fn next(&mut self) -> (r: Option<(&'a K, &'a V)>)
        requires
            old(self).wf(),
        ensures
            final(self).wf(),
            final(self).table() == old(self).table(),
            old(self).remaining().len() == 0 ==> r is None && final(self).remaining() == old(
                self,
            ).remaining(),
            old(self).remaining().len() > 0 ==> (r matches Some(p) && ((p.0)@, *p.1) == old(
                self,
            ).remaining()[0] && final(self).remaining() == old(self).remaining().drop_first()),
    {
        let m: &'a HashMap<K, V> = self.map;
        let ghost vs = bucket_views(m.buckets@);
        while self.bucket < m.buckets.len() && self.at >= m.buckets[self.bucket].len()
            invariant
                self.map == m,
                vs == bucket_views(m.buckets@),
                self.wf(),
                self.remaining() == old(self).remaining(),
            decreases m.buckets@.len() - self.bucket,
        {
            proof {
                assert(self.at == vs[self.bucket as int].len());
                lemma_suffix_skip(vs, self.bucket as int);
            }
            self.bucket = self.bucket + 1;
            self.at = 0;
        }
        if self.bucket < m.buckets.len() {
            proof {
                lemma_suffix_step(vs, self.bucket as int, self.at as int);
            }
            let p = &m.buckets[self.bucket][self.at];
            self.at = self.at + 1;
            Some((&p.0, &p.1))
        } else {
            proof {
                assert(self.remaining() =~= Seq::<(<K as View>::V, V)>::empty());
            }
            None
        }
    }
}

impl<K: HashKey, V> HashMap<K, V> {
    /// Iteration is complete: the traversal sequence of a well-formed table
    /// holds exactly as many pairs as the count, its key views are pairwise
    /// distinct, every pair it yields is in the contents, and every key of
    /// the contents appears in it.
    pub proof fn lemma_iteration_complete(self)
        requires
            self.wf(),
        ensures
            self.kv_seq().len() == self.spec_len(),
            forall|x: int, y: int|
                0 <= x < y < self.kv_seq().len() ==> (#[trigger] self.kv_seq()[x]).0
                    != (#[trigger] self.kv_seq()[y]).0,
            forall|idx: int|
                0 <= idx < self.kv_seq().len() ==> self.contents().contains_pair(
                    (#[trigger] self.kv_seq()[idx]).0,
                    self.kv_seq()[idx].1,
                ),
            forall|kv: <K as View>::V|
                #[trigger] self.contents().contains_key(kv) ==> exists|idx: int|
                    0 <= idx < self.kv_seq().len() && (#[trigger] self.kv_seq()[idx]).0 == kv,
    {
        let vs = bucket_views(self.buckets@);
        let s = self.kv_seq();
        lemma_suffix_len(vs, 0);
        lemma_suffix_distinct::<K, V>(vs, 0, 0);
        assert forall|idx: int| 0 <= idx < s.len() implies self.contents().contains_pair(
            (#[trigger] s[idx]).0,
            s[idx].1,
        ) by {
            lemma_suffix_elem(vs, 0, 0, idx);
            let (a, x): (int, int) = choose|a: int, x: int|
                #![trigger vs[a][x]]
                0 <= a < vs.len() && 0 <= x < vs[a].len() && (a > 0 || (a == 0 && x
                    >= 0)) && suffix_from(vs, 0, 0)[idx] == vs[a][x];
            assert(vbucket_has(vs[a], vs[a][x].0));
            assert(vhas(vs, vs[a][x].0));
            lemma_vval_at::<K, V>(vs, a, x);
        }
        assert forall|kv: <K as View>::V| #[trigger] self.contents().contains_key(
            kv,
        ) implies exists|idx: int| 0 <= idx < s.len() && (#[trigger] s[idx]).0 == kv by {
            assert(vhas(vs, kv));
            let a = choose|a: int| 0 <= a < vs.len() && vbucket_has(vs[a], kv);
            let x = choose|x: int| 0 <= x < vs[a].len() && vs[a][x].0 == kv;
            lemma_position_in_suffix(vs, 0, 0, a, x);
            let idx = choose|idx: int|
                0 <= idx < suffix_from(vs, 0, 0).len() && #[trigger] suffix_from(vs, 0, 0)[idx]
                    == vs[a][x];
            assert(0 <= idx < s.len() && s[idx].0 == kv);
        }
    }

    /// The count always equals the number of distinct keys present — the
    /// keys ever inserted less those since removed: the domain of the
    /// contents is finite and has exactly `spec_len` elements.
    pub proof fn lemma_len_is_key_count(self)
        requires
            self.wf(),
        ensures
            self.contents().dom().finite(),
            self.contents().dom().len() == self.spec_len(),
    {
        broadcast use vstd::seq_lib::seq_to_set_is_finite;

        let s = self.kv_seq();
        let keys = s.map_values(|p: (<K as View>::V, V)| p.0);
        self.lemma_iteration_complete();
        assert(keys.no_duplicates()) by {
            assert forall|x: int, y: int|
                0 <= x < keys.len() && 0 <= y < keys.len() && x != y implies keys[x]
                != keys[y] by {
                assert(keys[x] == s[x].0 && keys[y] == s[y].0);
            }
        }
        keys.unique_seq_to_set();
        assert(self.contents().dom() =~= keys.to_set()) by {
            assert forall|kv: <K as View>::V| #[trigger] keys.to_set().contains(
                kv,
            ) implies self.contents().contains_key(kv) by {
                let idx = choose|idx: int| 0 <= idx < keys.len() && keys[idx] == kv;
                assert(self.contents().contains_pair(s[idx].0, s[idx].1));
            }
            assert forall|kv: <K as View>::V| #[trigger] self.contents().contains_key(
                kv,
            ) implies keys.to_set().contains(kv) by {
                let idx = choose|idx: int| 0 <= idx < s.len() && (#[trigger] s[idx]).0 == kv;
                assert(keys[idx] == kv);
                assert(keys.contains(kv));
            }
        }
    }
}

/// Round trip: a table an insertion of `(k, v)` has produced maps `k`'s view
/// to `v`, so `get` yields `v` and `contains_key` holds, by their contracts.
pub proof fn lemma_insert_round_trip<K: HashKey, V>(
    pre: HashMap<K, V>,
    post: HashMap<K, V>,
    kv: <K as View>::V,
    v: V,
)
    requires
        post.contents() == pre.contents().insert(kv, v),
    ensures
        post.contents().contains_key(kv),
        post.contents()[kv] == v,
{
}

/// Absence after removal: a table a removal of `k` has produced no longer
/// holds `k`'s view, so `get` yields nothing and `contains_key` is false.
pub proof fn lemma_remove_absence<K: HashKey, V>(
    pre: HashMap<K, V>,
    post: HashMap<K, V>,
    kv: <K as View>::V,
)
    requires
        post.contents() == pre.contents().remove(kv),
    ensures
        !post.contents().contains_key(kv),
{
}

} // verus!

