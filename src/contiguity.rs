//! Contiguity builders: elements are neighbours when they share a quantized
//! vertex (queen) or a quantized edge (rook).

use crate::weights::Weights;
use std::collections::BTreeMap;
use vstd::laws_cmp::obeys_cmp;
use vstd::prelude::*;

verus! {

broadcast use vstd::std_specs::btree::group_btree_axioms, vstd::laws_cmp::group_laws_cmp;

/// Some key occurs in both sequences.
pub open spec fn shares_key<K>(s: Seq<K>, t: Seq<K>) -> bool {
    exists|i: int, j: int| 0 <= i < s.len() && 0 <= j < t.len() && s[i] == t[j]
}

/// Some group among the first `g` holds both `a` and `b`.
pub open spec fn grouped_before(gs: Seq<Seq<usize>>, g: int, a: usize, b: usize) -> bool {
    exists|h: int| 0 <= h < g && (#[trigger] gs[h]).contains(a) && gs[h].contains(b)
}

/// The pairs already linked while walking group `g` at member `x`, partner `y`.
pub open spec fn linked_so_far(gs: Seq<Seq<usize>>, g: int, x: int, y: int, a: usize, b: usize) -> bool {
    ||| grouped_before(gs, g, a, b)
    ||| (exists|x2: int| 0 <= x2 < x && #[trigger] gs[g][x2] == a) && gs[g].contains(b)
    ||| (0 <= x < gs[g].len() && gs[g][x] == a && exists|y2: int| 0 <= y2 < y && #[trigger] gs[g][y2] == b)
}

/// Some group with key `k` lists item `a`.
pub open spec fn in_group_of<K>(groups: Seq<Vec<usize>>, gkeys: Seq<K>, k: K, a: int) -> bool {
    exists|g: int| 0 <= g < groups.len() && gkeys[g] == k && groups[g]@.contains(a as usize)
}

/// Groups the indices of `item_keys` by key: `gkeys[g]` is the key of group `g`,
/// and `groups[g]` lists every item holding it (an item may be listed twice).
fn group_by_key<K: Ord + Copy>(item_keys: &Vec<Vec<K>>) -> (r: (Vec<Vec<usize>>, Vec<K>))
    requires
        obeys_cmp::<K>(),
    ensures
        r.0@.len() == r.1@.len(),
        forall|g: int, h: int| 0 <= g < h < r.1@.len() ==> r.1@[g] != r.1@[h],
        forall|g: int, m: int|
            0 <= g < r.0@.len() && 0 <= m < r.0@[g]@.len() ==> (#[trigger] r.0@[g]@[m]) < item_keys@.len()
                && item_keys@[r.0@[g]@[m] as int]@.contains(r.1@[g]),
        forall|a: int, i: int|
            0 <= a < item_keys@.len() && 0 <= i < item_keys@[a]@.len() ==> in_group_of(
                r.0@,
                r.1@,
                #[trigger] item_keys@[a]@[i],
                a,
            ),
{
    let n = item_keys.len();
    let mut index: BTreeMap<K, usize> = BTreeMap::new();
    let mut groups: Vec<Vec<usize>> = Vec::new();
    let mut gkeys: Vec<K> = Vec::new();
    let mut a: usize = 0;
    while a < n
        invariant
            obeys_cmp::<K>(),
            n == item_keys@.len(),
            a <= n,
            groups@.len() == gkeys@.len(),
            forall|k: K|
                #[trigger] index@.contains_key(k) ==> index@[k] < gkeys@.len() && gkeys@[index@[k] as int]
                    == k,
            forall|g: int|
                0 <= g < gkeys@.len() ==> index@.contains_key(#[trigger] gkeys@[g]) && index@[gkeys@[g]]
                    == g,
            forall|g: int, m: int|
                0 <= g < groups@.len() && 0 <= m < groups@[g]@.len() ==> (#[trigger] groups@[g]@[m]) < a
                    && item_keys@[groups@[g]@[m] as int]@.contains(gkeys@[g]),
            forall|b: int, i: int|
                0 <= b < a && 0 <= i < item_keys@[b]@.len() ==> index@.contains_key(
                    #[trigger] item_keys@[b]@[i],
                ) && groups@[index@[item_keys@[b]@[i]] as int]@.contains(b as usize),
        decreases n - a,
    {
        let keys = &item_keys[a];
        let mut i: usize = 0;
        while i < keys.len()
            invariant
                obeys_cmp::<K>(),
                n == item_keys@.len(),
                a < n,
                keys@ == item_keys@[a as int]@,
                i <= keys@.len(),
                groups@.len() == gkeys@.len(),
                forall|k: K|
                    #[trigger] index@.contains_key(k) ==> index@[k] < gkeys@.len() && gkeys@[index@[k] as int]
                        == k,
                forall|g: int|
                    0 <= g < gkeys@.len() ==> index@.contains_key(#[trigger] gkeys@[g])
                        && index@[gkeys@[g]] == g,
                forall|g: int, m: int|
                    0 <= g < groups@.len() && 0 <= m < groups@[g]@.len() ==> (#[trigger] groups@[g]@[m])
                        <= a && item_keys@[groups@[g]@[m] as int]@.contains(gkeys@[g]),
                forall|b: int, j: int|
                    0 <= b < a && 0 <= j < item_keys@[b]@.len() ==> index@.contains_key(
                        #[trigger] item_keys@[b]@[j],
                    ) && groups@[index@[item_keys@[b]@[j]] as int]@.contains(b as usize),
                forall|j: int|
                    0 <= j < i ==> index@.contains_key(#[trigger] keys@[j]) && groups@[index@[keys@[j]] as int]@.contains(
                        a,
                    ),
            decreases keys@.len() - i,
        {
            let key = keys[i];
            assert(item_keys@[a as int]@.contains(key)) by {
                assert(item_keys@[a as int]@[i as int] == key);
            }
            let ghost old_groups = groups@;
            match index.get(&key) {
                Some(g) => {
                    let g = *g;
                    groups[g].push(a);
                    assert forall|h: int, m: int|
                        0 <= h < groups@.len() && 0 <= m < groups@[h]@.len() implies (
                        #[trigger] groups@[h]@[m]) <= a && item_keys@[groups@[h]@[m] as int]@.contains(
                        gkeys@[h],
                    ) by {
                        if h != g || m < old_groups[h]@.len() {
                            assert(groups@[h]@[m] == old_groups[h]@[m]);
                        }
                    }
                    assert forall|b: int, j: int|
                        0 <= b < a && 0 <= j < item_keys@[b]@.len() implies index@.contains_key(
                        #[trigger] item_keys@[b]@[j],
                    ) && groups@[index@[item_keys@[b]@[j]] as int]@.contains(b as usize) by {
                        let h = index@[item_keys@[b]@[j]] as int;
                        let m = choose|m: int| 0 <= m < old_groups[h]@.len() && old_groups[h]@[m] == b as usize;
                        assert(groups@[h]@[m] == b as usize);
                    }
                    assert forall|j: int|
                        0 <= j < i + 1 implies index@.contains_key(#[trigger] keys@[j])
                        && groups@[index@[keys@[j]] as int]@.contains(a) by {
                        let h = index@[keys@[j]] as int;
                        if j < i {
                            let m = choose|m: int| 0 <= m < old_groups[h]@.len() && old_groups[h]@[m] == a;
                            assert(groups@[h]@[m] == a);
                        } else {
                            assert(groups@[h]@[old_groups[h]@.len() as int] == a);
                        }
                    }
                },
                None => {
                    let g = groups.len();
                    index.insert(key, g);
                    let mut members: Vec<usize> = Vec::new();
                    members.push(a);
                    groups.push(members);
                    gkeys.push(key);
                    assert forall|h: int, m: int|
                        0 <= h < groups@.len() && 0 <= m < groups@[h]@.len() implies (
                        #[trigger] groups@[h]@[m]) <= a && item_keys@[groups@[h]@[m] as int]@.contains(
                        gkeys@[h],
                    ) by {
                        if h < g {
                            assert(groups@[h] == old_groups[h]);
                        }
                    }
                    assert forall|b: int, j: int|
                        0 <= b < a && 0 <= j < item_keys@[b]@.len() implies index@.contains_key(
                        #[trigger] item_keys@[b]@[j],
                    ) && groups@[index@[item_keys@[b]@[j]] as int]@.contains(b as usize) by {
                        assert(item_keys@[b]@[j] != key);
                        let h = index@[item_keys@[b]@[j]] as int;
                        assert(groups@[h] == old_groups[h]);
                    }
                    assert forall|j: int|
                        0 <= j < i + 1 implies index@.contains_key(#[trigger] keys@[j])
                        && groups@[index@[keys@[j]] as int]@.contains(a) by {
                        if j < i {
                            assert(keys@[j] != key);
                            let h = index@[keys@[j]] as int;
                            assert(groups@[h] == old_groups[h]);
                        } else {
                            assert(groups@[g as int]@[0] == a);
                        }
                    }
                },
            }
            i = i + 1;
        }
        a = a + 1;
    }
    let r = (groups, gkeys);
    proof {
        assert forall|g: int, h: int| 0 <= g < h < r.1@.len() implies r.1@[g] != r.1@[h] by {
            assert(index@[gkeys@[g]] == g);
            assert(index@[gkeys@[h]] == h);
        }
        assert forall|b: int, j: int|
            0 <= b < item_keys@.len() && 0 <= j < item_keys@[b]@.len() implies in_group_of(
            r.0@,
            r.1@,
            #[trigger] item_keys@[b]@[j],
            b,
        ) by {
            let g = index@[item_keys@[b]@[j]] as int;
            assert(r.1@[g] == item_keys@[b]@[j]);
            assert(r.0@[g]@.contains(b as usize));
        }
    }
    r
}

/// `m` links every two distinct elements whose key lists share a key, with
/// weight `weight`, and nothing else; every element has an entry.
pub open spec fn links_shared_keys<K, W>(m: Map<usize, Map<usize, W>>, keys: Seq<Seq<K>>, weight: W) -> bool {
    &&& forall|a: usize| #[trigger] m.contains_key(a) <==> a < keys.len()
    &&& forall|a: usize, b: usize|
        #![trigger m[a].contains_key(b)]
        a < keys.len() ==> (m[a].contains_key(b) <==> b < keys.len() && a != b && shares_key(
            keys[a as int],
            keys[b as int],
        ))
    &&& forall|a: usize, b: usize|
        #![trigger m[a][b]]
        a < keys.len() && m[a].contains_key(b) ==> m[a][b] == weight
}

/// The key lists of the items, as sequences.
pub open spec fn key_seqs<K>(item_keys: Seq<Vec<K>>) -> Seq<Seq<K>> {
    item_keys.map_values(|v: Vec<K>| v@)
}

/// Links every two distinct items that share a key, with weight `weight`.
fn link_shared_keys<K: Ord + Copy, W: Copy>(item_keys: &Vec<Vec<K>>, weight: W) -> (r: Weights<W>)
    requires
        obeys_cmp::<K>(),
    ensures
        r.wf(),
        r.size() == item_keys@.len(),
        links_shared_keys(r@, key_seqs(item_keys@), weight),
{
    let n = item_keys.len();
    let ghost keys = key_seqs(item_keys@);
    let (groups, gkeys) = group_by_key(item_keys);
    let ghost gs = groups@.map_values(|v: Vec<usize>| v@);
    let mut w: Weights<W> = Weights::empty(n);
    let mut a: usize = 0;
    while a < n
        invariant
            a <= n,
            w.wf(),
            w.size() == n,
            forall|p: usize| #[trigger] w@.contains_key(p) <==> p < a,
            forall|p: usize| p < a ==> #[trigger] w@[p] == Map::<usize, W>::empty(),
        decreases n - a,
    {
        w.touch(a);
        a = a + 1;
    }
    let mut g: usize = 0;
    while g < groups.len()
        invariant
            n == item_keys@.len(),
            gs == groups@.map_values(|v: Vec<usize>| v@),
            forall|h: int, m: int|
                0 <= h < groups@.len() && 0 <= m < groups@[h]@.len() ==> (#[trigger] groups@[h]@[m]) < n,
            g <= groups@.len(),
            w.wf(),
            w.size() == n,
            forall|p: usize| #[trigger] w@.contains_key(p) <==> p < n,
            forall|p: usize, q: usize|
                #![trigger w@[p].contains_key(q)]
                p < n ==> (w@[p].contains_key(q) <==> p != q && grouped_before(gs, g as int, p, q)),
            forall|p: usize, q: usize|
                #![trigger w@[p][q]]
                p < n && w@[p].contains_key(q) ==> w@[p][q] == weight,
        decreases groups@.len() - g,
    {
        let grp = &groups[g];
        assert(grp@ == gs[g as int]);
        let mut x: usize = 0;
        while x < grp.len()
            invariant
                n == item_keys@.len(),
                grp@ == gs[g as int],
                g < gs.len(),
                forall|m: int| 0 <= m < grp@.len() ==> #[trigger] grp@[m] < n,
                x <= grp@.len(),
                w.wf(),
                w.size() == n,
                forall|p: usize| #[trigger] w@.contains_key(p) <==> p < n,
                forall|p: usize, q: usize|
                    #![trigger w@[p].contains_key(q)]
                    p < n ==> (w@[p].contains_key(q) <==> p != q && linked_so_far(gs, g as int, x as int, 0, p, q)),
                forall|p: usize, q: usize|
                    #![trigger w@[p][q]]
                    p < n && w@[p].contains_key(q) ==> w@[p][q] == weight,
            decreases grp@.len() - x,
        {
            let mut y: usize = 0;
            while y < grp.len()
                invariant
                    n == item_keys@.len(),
                    grp@ == gs[g as int],
                    g < gs.len(),
                    forall|m: int| 0 <= m < grp@.len() ==> #[trigger] grp@[m] < n,
                    x < grp@.len(),
                    y <= grp@.len(),
                    w.wf(),
                    w.size() == n,
                    forall|p: usize| #[trigger] w@.contains_key(p) <==> p < n,
                    forall|p: usize, q: usize|
                        #![trigger w@[p].contains_key(q)]
                        p < n ==> (w@[p].contains_key(q) <==> p != q && linked_so_far(
                            gs,
                            g as int,
                            x as int,
                            y as int,
                            p,
                            q,
                        )),
                    forall|p: usize, q: usize|
                        #![trigger w@[p][q]]
                        p < n && w@[p].contains_key(q) ==> w@[p][q] == weight,
                decreases grp@.len() - y,
            {
                let u = grp[x];
                let v = grp[y];
                let ghost before = w@;
                if u != v {
                    w.link(u, v, weight);
                }
                assert forall|p: usize, q: usize| p < n implies (#[trigger] w@[p].contains_key(q) <==> p
                    != q && linked_so_far(gs, g as int, x as int, y + 1, p, q)) by {
                    if p == u && q == v {
                        assert(gs[g as int][y as int] == q);
                    } else if linked_so_far(gs, g as int, x as int, y + 1, p, q) {
                        if !linked_so_far(gs, g as int, x as int, y as int, p, q) {
                            let y2 = choose|y2: int| 0 <= y2 < y + 1 && #[trigger] gs[g as int][y2] == q;
                            assert(y2 == y);
                        }
                    }
                }
                y = y + 1;
            }
            assert forall|p: usize, q: usize|
                linked_so_far(gs, g as int, x as int, grp@.len() as int, p, q) == linked_so_far(
                    gs,
                    g as int,
                    x + 1,
                    0,
                    p,
                    q,
                ) by {
                if linked_so_far(gs, g as int, x + 1, 0, p, q) && !grouped_before(gs, g as int, p, q) {
                    let x2 = choose|x2: int| 0 <= x2 < x + 1 && #[trigger] gs[g as int][x2] == p;
                    if x2 == x {
                        let m = choose|m: int| 0 <= m < gs[g as int].len() && gs[g as int][m] == q;
                        assert(gs[g as int][m] == q);
                    }
                }
                if linked_so_far(gs, g as int, x as int, grp@.len() as int, p, q)
                    && !grouped_before(gs, g as int, p, q) {
                    if !(exists|x2: int| 0 <= x2 < x && #[trigger] gs[g as int][x2] == p) {
                        let y2 = choose|y2: int| 0 <= y2 < grp@.len() && #[trigger] gs[g as int][y2] == q;
                        assert(gs[g as int].contains(q));
                        assert(gs[g as int][x as int] == p);
                    }
                }
            }
            x = x + 1;
        }
        assert forall|p: usize, q: usize|
            linked_so_far(gs, g as int, grp@.len() as int, 0, p, q) == grouped_before(
                gs,
                g + 1,
                p,
                q,
            ) by {
            if grouped_before(gs, g + 1, p, q) && !grouped_before(gs, g as int, p, q) {
                let h = choose|h: int| 0 <= h < g + 1 && (#[trigger] gs[h]).contains(p) && gs[h].contains(q);
                assert(h == g);
                let m = choose|m: int| 0 <= m < gs[g as int].len() && gs[g as int][m] == p;
                assert(gs[g as int][m] == p);
            }
            if linked_so_far(gs, g as int, grp@.len() as int, 0, p, q) && !grouped_before(gs, g as int, p, q) {
                let x2 = choose|x2: int| 0 <= x2 < grp@.len() && #[trigger] gs[g as int][x2] == p;
                assert(gs[g as int].contains(p));
                assert(grouped_before(gs, g + 1, p, q)) by {
                    assert(gs[g as int].contains(p) && gs[g as int].contains(q));
                }
            }
            if grouped_before(gs, g as int, p, q) {
                let h = choose|h: int| 0 <= h < g && (#[trigger] gs[h]).contains(p) && gs[h].contains(q);
                assert(grouped_before(gs, g + 1, p, q)) by {
                    assert(0 <= h < g + 1 && gs[h].contains(p) && gs[h].contains(q));
                }
            }
        }
        g = g + 1;
    }
    proof {
        assert forall|p: usize, q: usize|
            p < n && q < n implies grouped_before(gs, groups@.len() as int, p, q) == shares_key(
            keys[p as int],
            keys[q as int],
        ) by {
            if grouped_before(gs, groups@.len() as int, p, q) {
                let h = choose|h: int|
                    0 <= h < groups@.len() && (#[trigger] gs[h]).contains(p) && gs[h].contains(q);
                let mp = choose|m: int| 0 <= m < gs[h].len() && gs[h][m] == p;
                let mq = choose|m: int| 0 <= m < gs[h].len() && gs[h][m] == q;
                assert(groups@[h]@[mp] == p);
                assert(groups@[h]@[mq] == q);
                let k = gkeys@[h];
                assert(item_keys@[p as int]@.contains(k));
                assert(item_keys@[q as int]@.contains(k));
                let i = choose|i: int| 0 <= i < keys[p as int].len() && keys[p as int][i] == k;
                let j = choose|j: int| 0 <= j < keys[q as int].len() && keys[q as int][j] == k;
                assert(keys[p as int][i] == keys[q as int][j]);
            }
            if shares_key(keys[p as int], keys[q as int]) {
                let (i, j) = choose|i: int, j: int|
                    0 <= i < keys[p as int].len() && 0 <= j < keys[q as int].len() && keys[p as int][i]
                        == keys[q as int][j];
                assert(in_group_of(groups@, gkeys@, item_keys@[p as int]@[i], p as int));
                assert(in_group_of(groups@, gkeys@, item_keys@[q as int]@[j], q as int));
                let gp = choose|h: int|
                    0 <= h < groups@.len() && gkeys@[h] == item_keys@[p as int]@[i] && groups@[h]@.contains(p);
                let gq = choose|h: int|
                    0 <= h < groups@.len() && gkeys@[h] == item_keys@[q as int]@[j] && groups@[h]@.contains(q);
                assert(gp == gq);
                assert(gs[gp] == groups@[gp]@);
            }
        }
    }
    w
}

/// A quantized vertex: `(floor(x * tolerance), floor(y * tolerance))`.
pub type VertexKey = (isize, isize);

/// A quantized edge with its endpoints in increasing order.
pub type EdgeKey = (isize, isize, isize, isize);

/// The key of the edge between `p` and `q`, whatever its orientation.
pub open spec fn edge_key(p: VertexKey, q: VertexKey) -> EdgeKey {
    if p.0 < q.0 || (p.0 == q.0 && p.1 <= q.1) {
        (p.0, p.1, q.0, q.1)
    } else {
        (q.0, q.1, p.0, p.1)
    }
}

/// The keys of the edges between consecutive vertices of a coordinate sequence.
pub open spec fn edge_keys(s: Seq<VertexKey>) -> Seq<EdgeKey> {
    Seq::new(if s.len() > 0 { (s.len() - 1) as nat } else { 0 }, |k: int| edge_key(s[k], s[k + 1]))
}

/// The edge keys of every geometry.
pub open spec fn rook_keys(rings: Seq<Seq<VertexKey>>) -> Seq<Seq<EdgeKey>> {
    rings.map_values(|s: Seq<VertexKey>| edge_keys(s))
}

/// Queen contiguity: two geometries are neighbours when they share a vertex.
#[derive(Debug)]
pub struct QueensWeights<T> {
    tolerance: T,
}

impl<T: Copy> QueensWeights<T> {
    /// The scale at which this builder's vertices are quantized.
    pub closed spec fn tolerance_spec(&self) -> T {
        self.tolerance
    }

    /// A builder whose callers quantize coordinates at scale `tolerance`.
    pub fn new(tolerance: T) -> (r: QueensWeights<T>)
        ensures
            r.tolerance_spec() == tolerance,
    {
        QueensWeights { tolerance }
    }

    /// The quantization scale.
    pub fn tolerance(&self) -> (r: T)
        ensures
            r == self.tolerance_spec(),
    {
        self.tolerance
    }

    /// Links, with weight `weight`, every two distinct geometries whose
    /// quantized vertex sequences share a vertex. Every geometry gets an
    /// entry, empty when it touches no other.
    pub fn compute_weights<W: Copy>(&self, vertex_keys: &Vec<Vec<VertexKey>>, weight: W) -> (r: Weights<W>)
        ensures
            r.wf(),
            r.size() == vertex_keys@.len(),
            links_shared_keys(r@, key_seqs(vertex_keys@), weight),
    {
        link_shared_keys(vertex_keys, weight)
    }
}

/// Rook contiguity: two geometries are neighbours when they share an edge,
/// in either orientation.
#[derive(Debug)]
pub struct RookWeights<T> {
    tolerance: T,
}

impl<T: Copy> RookWeights<T> {
    /// The scale at which this builder's vertices are quantized.
    pub closed spec fn tolerance_spec(&self) -> T {
        self.tolerance
    }

    /// A builder whose callers quantize coordinates at scale `tolerance`.
    pub fn new(tolerance: T) -> (r: RookWeights<T>)
        ensures
            r.tolerance_spec() == tolerance,
    {
        RookWeights { tolerance }
    }

    /// The quantization scale.
    pub fn tolerance(&self) -> (r: T)
        ensures
            r == self.tolerance_spec(),
    {
        self.tolerance
    }

    /// Links, with weight `weight`, every two distinct geometries that share
    /// an edge between consecutive quantized vertices, in either direction.
    /// Every geometry gets an entry, empty when it shares no edge.
    pub fn compute_weights<W: Copy>(&self, vertex_keys: &Vec<Vec<VertexKey>>, weight: W) -> (r: Weights<W>)
        ensures
            r.wf(),
            r.size() == vertex_keys@.len(),
            links_shared_keys(r@, rook_keys(key_seqs(vertex_keys@)), weight),
    {
        let mut edges: Vec<Vec<EdgeKey>> = Vec::new();
        let mut g: usize = 0;
        while g < vertex_keys.len()
            invariant
                g <= vertex_keys@.len(),
                edges@.len() == g,
                forall|h: int| 0 <= h < g ==> #[trigger] edges@[h]@ == edge_keys(vertex_keys@[h]@),
            decreases vertex_keys@.len() - g,
        {
            edges.push(ring_edges(&vertex_keys[g]));
            g = g + 1;
        }
        assert(key_seqs(edges@) =~= rook_keys(key_seqs(vertex_keys@)));
        link_shared_keys(&edges, weight)
    }
}

/// The edge keys of one coordinate sequence.
fn ring_edges(ring: &Vec<VertexKey>) -> (r: Vec<EdgeKey>)
    ensures
        r@ == edge_keys(ring@),
{
    let mut out: Vec<EdgeKey> = Vec::new();
    let mut k: usize = 1;
    while k < ring.len()
        invariant
            1 <= k,
            k <= ring@.len() || k == 1,
            out@.len() == k - 1,
            forall|j: int| 0 <= j < k - 1 ==> #[trigger] out@[j] == edge_key(ring@[j], ring@[j + 1]),
        decreases ring@.len() - k,
    {
        let p = ring[k - 1];
        let q = ring[k];
        let e = if p.0 < q.0 || (p.0 == q.0 && p.1 <= q.1) {
            (p.0, p.1, q.0, q.1)
        } else {
            (q.0, q.1, p.0, p.1)
        };
        out.push(e);
        k = k + 1;
    }
    assert forall|j: int| 0 <= j < out@.len() implies out@[j] == edge_keys(ring@)[j] by {
        assert(out@[j] == edge_key(ring@[j], ring@[j + 1]));
    }
    assert(out@ =~= edge_keys(ring@));
    out
}

/// Contiguity is symmetric: `b` is a neighbour of `a` exactly when `a` is a
/// neighbour of `b`, for queen and rook matrices alike.
pub proof fn lemma_contiguity_symmetric<K, W>(m: Map<usize, Map<usize, W>>, keys: Seq<Seq<K>>, weight: W)
    requires
        links_shared_keys(m, keys, weight),
    ensures
        forall|a: usize, b: usize|
            a < keys.len() && b < keys.len() ==> (#[trigger] m[a].contains_key(b) <==> m[b].contains_key(a)),
{
    assert forall|a: usize, b: usize| a < keys.len() && b < keys.len() implies (#[trigger] m[a].contains_key(
        b,
    ) <==> m[b].contains_key(a)) by {
        if shares_key(keys[a as int], keys[b as int]) {
            let (i, j) = choose|i: int, j: int|
                0 <= i < keys[a as int].len() && 0 <= j < keys[b as int].len() && keys[a as int][i]
                    == keys[b as int][j];
            assert(shares_key(keys[b as int], keys[a as int])) by {
                assert(keys[b as int][j] == keys[a as int][i]);
            }
        }
        if shares_key(keys[b as int], keys[a as int]) {
            let (i, j) = choose|i: int, j: int|
                0 <= i < keys[b as int].len() && 0 <= j < keys[a as int].len() && keys[b as int][i]
                    == keys[a as int][j];
            assert(keys[a as int][j] == keys[b as int][i]);
        }
    }
}

/// Rook neighbours are queen neighbours: two geometries that share an edge
/// share its endpoints.
pub proof fn lemma_rook_within_queen<W, V>(
    rings: Seq<Seq<VertexKey>>,
    rook: Map<usize, Map<usize, W>>,
    rook_weight: W,
    queen: Map<usize, Map<usize, V>>,
    queen_weight: V,
)
    requires
        links_shared_keys(rook, rook_keys(rings), rook_weight),
        links_shared_keys(queen, rings, queen_weight),
    ensures
        forall|a: usize, b: usize|
            rook.contains_key(a) && #[trigger] rook[a].contains_key(b) ==> queen.contains_key(a)
                && queen[a].contains_key(b),
{
    assert forall|a: usize, b: usize| rook.contains_key(a) && #[trigger] rook[a].contains_key(b) implies queen.contains_key(
        a,
    ) && queen[a].contains_key(b) by {
        let ea = edge_keys(rings[a as int]);
        let eb = edge_keys(rings[b as int]);
        assert(rook_keys(rings)[a as int] == ea);
        assert(rook_keys(rings)[b as int] == eb);
        let (i, j) = choose|i: int, j: int| 0 <= i < ea.len() && 0 <= j < eb.len() && ea[i] == eb[j];
        let sa = rings[a as int];
        let sb = rings[b as int];
        assert(ea[i] == edge_key(sa[i], sa[i + 1]));
        assert(eb[j] == edge_key(sb[j], sb[j + 1]));
        if sa[i].0 == sb[j].0 && sa[i].1 == sb[j].1 {
            assert(sa[i] == sb[j]);
            assert(shares_key(sa, sb));
        } else {
            assert(sa[i].0 == sb[j + 1].0 && sa[i].1 == sb[j + 1].1);
            assert(sa[i] == sb[j + 1]);
            assert(shares_key(sa, sb));
        }
    }
}

} // verus!
