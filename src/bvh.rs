//! A bounding-volume hierarchy over surfaces.
use vstd::prelude::*;
use crate::aabb::{aabb_hits, lemma_hits_grow_box, lemma_hits_grow_interval, lemma_surrounding_box_contains, surrounding_box, union_box, Aabb};
use crate::hitable::{
    bbox_of, bump, flat, hit_spec, hitable_wf, in_range, lemma_bbox_wf, lemma_hit_narrows, lemma_hit_range,
    lemma_hit_sound, lemma_narrows_prefix, narrow_ok, narrows, scan, HitRecord, Hitable,
};
use crate::ray::Ray;
use crate::rng::random_below;

verus! {

/// A node of the hierarchy: two children and a box that holds both.
pub struct BvhNode {
    pub left: Box<Hitable>,
    pub right: Box<Hitable>,
    pub bbox: Aabb,
}

/// The surfaces below a node of the hierarchy; any other surface is its own leaf.
pub open spec fn leaves(h: Hitable) -> Seq<Hitable>
    decreases h,
{
    match h {
        Hitable::Bvh(n) => leaves(*n.left) + leaves(*n.right),
        _ => seq![h],
    }
}

/// The leaves of the surfaces of `s`, in order.
pub open spec fn leaves_seq(s: Seq<Hitable>) -> Seq<Hitable>
    decreases s.len(),
{
    if s.len() == 0 {
        Seq::empty()
    } else {
        leaves_seq(s.drop_last()) + leaves(s.last())
    }
}

/// Every node at or below `h` has as its box the union of its children's boxes.
pub open spec fn tight(h: Hitable) -> bool
    decreases h,
{
    match h {
        Hitable::Bvh(n) => n.bbox == union_box(bbox_of(*n.left), bbox_of(*n.right)) && tight(*n.left) && tight(
            *n.right,
        ),
        _ => true,
    }
}

pub proof fn lemma_leaves_seq_concat(a: Seq<Hitable>, b: Seq<Hitable>)
    ensures
        leaves_seq(a + b) == leaves_seq(a) + leaves_seq(b),
    decreases b.len(),
{
    if b.len() == 0 {
        assert(a + b =~= a);
        assert(leaves_seq(a) + leaves_seq(b) =~= leaves_seq(a));
    } else {
        assert((a + b).drop_last() =~= a + b.drop_last());
        assert((a + b).last() == b.last());
        lemma_leaves_seq_concat(a, b.drop_last());
        assert(leaves_seq(a + b) =~= leaves_seq(a) + leaves_seq(b));
    }
}

proof fn lemma_leaves_seq_remove(s: Seq<Hitable>, m: int)
    requires
        0 <= m < s.len(),
    ensures
        leaves_seq(s).to_multiset() == leaves_seq(s.remove(m)).to_multiset().add(leaves(s[m]).to_multiset()),
{
    broadcast use vstd::multiset::group_multiset_axioms;
    let a = s.subrange(0, m);
    assert(seq![s[m]].last() == s[m]);
    assert(leaves_seq(Seq::<Hitable>::empty()) =~= Seq::<Hitable>::empty());
    let b = s.subrange(m + 1, s.len() as int);
    assert(s =~= a + (seq![s[m]] + b));
    assert(s.remove(m) =~= a + b);
    lemma_leaves_seq_concat(a, seq![s[m]] + b);
    lemma_leaves_seq_concat(seq![s[m]], b);
    lemma_leaves_seq_concat(a, b);
    assert(seq![s[m]].drop_last() =~= Seq::<Hitable>::empty());
    assert(leaves_seq(seq![s[m]]) =~= leaves(s[m]));
    vstd::seq_lib::lemma_multiset_commutative(leaves_seq(a), leaves_seq(seq![s[m]] + b));
    vstd::seq_lib::lemma_multiset_commutative(leaves(s[m]), leaves_seq(b));
    vstd::seq_lib::lemma_multiset_commutative(leaves_seq(a), leaves_seq(b));
    assert(leaves_seq(s).to_multiset() =~= leaves_seq(s.remove(m)).to_multiset().add(leaves(s[m]).to_multiset()));
}

proof fn lemma_two_perm(s: Seq<Hitable>, o: Seq<Hitable>)
    requires
        s.len() == 2,
        o.len() == 2,
        s.to_multiset() == o.to_multiset(),
    ensures
        (s[0] == o[0] && s[1] == o[1]) || (s[0] == o[1] && s[1] == o[0]),
{
    broadcast use vstd::multiset::group_multiset_axioms;
    assert(s =~= Seq::<Hitable>::empty().push(s[0]).push(s[1]));
    assert(o =~= Seq::<Hitable>::empty().push(o[0]).push(o[1]));
    vstd::seq_lib::to_multiset_build(Seq::<Hitable>::empty(), s[0]);
    vstd::seq_lib::to_multiset_build(Seq::<Hitable>::empty().push(s[0]), s[1]);
    vstd::seq_lib::to_multiset_build(Seq::<Hitable>::empty(), o[0]);
    vstd::seq_lib::to_multiset_build(Seq::<Hitable>::empty().push(o[0]), o[1]);
    assert(Seq::<Hitable>::empty().to_multiset() =~= vstd::multiset::Multiset::empty()) by {
        vstd::seq_lib::to_multiset_len(Seq::<Hitable>::empty());
    }
    let e = vstd::multiset::Multiset::<Hitable>::empty();
    assert(s.to_multiset() == e.insert(s[0]).insert(s[1]));
    assert(o.to_multiset() == e.insert(o[0]).insert(o[1]));
    let ms = e.insert(s[0]).insert(s[1]);
    let mo = e.insert(o[0]).insert(o[1]);
    assert(ms.count(s[0]) == mo.count(s[0]));
    assert(ms.count(s[1]) == mo.count(s[1]));
    assert(ms.count(o[0]) == mo.count(o[0]));
    assert(ms.count(o[1]) == mo.count(o[1]));
}

/// `x` is a leaf of some surface of `s`.
pub open spec fn leaf_of(s: Seq<Hitable>, x: Hitable) -> bool {
    exists|i: int| 0 <= i < s.len() && #[trigger] leaves(s[i]).contains(x)
}

/// The minimum corner of the surface's box on `axis`.
pub open spec fn box_key(h: Hitable, axis: int) -> int {
    bbox_of(h).min.at(axis) as int
}

pub open spec fn sorted_by(s: Seq<Hitable>, axis: int) -> bool {
    forall|a: int, b: int| 0 <= a < b < s.len() ==> box_key(s[a], axis) <= box_key(s[b], axis)
}

pub open spec fn all_wf(s: Seq<Hitable>) -> bool {
    forall|i: int| 0 <= i < s.len() ==> #[trigger] hitable_wf(s[i])
}

pub proof fn lemma_concat_contains(a: Seq<Hitable>, b: Seq<Hitable>, x: Hitable)
    ensures
        (a + b).contains(x) <==> (a.contains(x) || b.contains(x)),
{
    if (a + b).contains(x) {
        let k = choose|k: int| 0 <= k < (a + b).len() && (a + b)[k] == x;
        if k < a.len() {
            assert(a[k] == x);
        } else {
            assert(b[k - a.len()] == x);
        }
    }
    if a.contains(x) {
        let k = choose|k: int| 0 <= k < a.len() && a[k] == x;
        assert((a + b)[k] == x);
    }
    if b.contains(x) {
        let k = choose|k: int| 0 <= k < b.len() && b[k] == x;
        assert((a + b)[k + a.len()] == x);
    }
}

proof fn lemma_leaf_of_same(a: Seq<Hitable>, b: Seq<Hitable>)
    requires
        forall|y: Hitable| a.contains(y) <==> b.contains(y),
    ensures
        forall|x: Hitable| leaf_of(a, x) <==> leaf_of(b, x),
{
    assert forall|x: Hitable| leaf_of(a, x) implies leaf_of(b, x) by {
        let i = choose|i: int| 0 <= i < a.len() && #[trigger] leaves(a[i]).contains(x);
        assert(a.contains(a[i]));
        let j = choose|j: int| 0 <= j < b.len() && b[j] == a[i];
        assert(leaves(b[j]).contains(x));
    }
    assert forall|x: Hitable| leaf_of(b, x) implies leaf_of(a, x) by {
        let i = choose|i: int| 0 <= i < b.len() && #[trigger] leaves(b[i]).contains(x);
        assert(b.contains(b[i]));
        let j = choose|j: int| 0 <= j < a.len() && a[j] == b[i];
        assert(leaves(a[j]).contains(x));
    }
}

proof fn lemma_leaf_of_split(s: Seq<Hitable>, k: int, x: Hitable)
    requires
        0 <= k <= s.len(),
    ensures
        leaf_of(s, x) <==> (leaf_of(s.subrange(0, k), x) || leaf_of(s.subrange(k, s.len() as int), x)),
{
    let a = s.subrange(0, k);
    let b = s.subrange(k, s.len() as int);
    if leaf_of(s, x) {
        let i = choose|i: int| 0 <= i < s.len() && #[trigger] leaves(s[i]).contains(x);
        if i < k {
            assert(a[i] == s[i]);
            assert(leaves(a[i]).contains(x));
        } else {
            assert(b[i - k] == s[i]);
            assert(leaves(b[i - k]).contains(x));
        }
    }
    if leaf_of(a, x) {
        let i = choose|i: int| 0 <= i < a.len() && #[trigger] leaves(a[i]).contains(x);
        assert(s[i] == a[i]);
        assert(leaves(s[i]).contains(x));
    }
    if leaf_of(b, x) {
        let i = choose|i: int| 0 <= i < b.len() && #[trigger] leaves(b[i]).contains(x);
        assert(s[i + k] == b[i]);
        assert(leaves(s[i + k]).contains(x));
    }
}

/// No hit of `h` lies before `t`.
pub open spec fn no_nearer(h: Option<HitRecord>, t: int) -> bool {
    match h {
        Some(x) => t <= x.t,
        None => true,
    }
}

/// A linear scan finds the nearest of its surfaces' hits: none if none of them is
/// hit; else a hit at the nearest parameter over the whole window, which one of
/// the surfaces reports over a window that ends at or after it.
pub proof fn lemma_scan_nearest(s: Seq<Hitable>, f: spec_fn(Hitable, int) -> Option<HitRecord>, lo: int, hi: int)
    requires
        narrows(f, s, lo, hi),
    ensures
        scan(s, f, hi) is None <==> (forall|i: int| 0 <= i < s.len() ==> #[trigger] f(s[i], hi) is None),
        match scan(s, f, hi) {
            Some(rec) => {
                &&& exists|i: int, c: int| 0 <= i < s.len() && rec.t <= c <= hi && #[trigger] f(s[i], c) == Some(rec)
                &&& exists|i: int| 0 <= i < s.len() && #[trigger] f(s[i], hi) is Some && f(s[i], hi).unwrap().t == rec.t
                &&& forall|j: int| 0 <= j < s.len() ==> no_nearer(#[trigger] f(s[j], hi), rec.t as int)
            },
            None => true,
        },
    decreases s.len(),
{
    if s.len() > 0 {
        let t = s.drop_last();
        let n = s.len() - 1;
        lemma_narrows_prefix(f, s, lo, hi);
        lemma_scan_nearest(t, f, lo, hi);
        crate::hitable::lemma_scan_narrow(t, f, lo, hi, hi);
        assert forall|j: int| 0 <= j < n implies s[j] == #[trigger] t[j] by {}
        let g = s.last();
        assert(s[n] == g);
        let p = scan(t, f, hi);
        match p {
            Some(rec) => {
                assert(narrow_ok(f(g, hi), f(g, rec.t as int), rec.t as int));
                let (i0, c0) = choose|i: int, c: int| 0 <= i < t.len() && rec.t <= c <= hi && #[trigger] f(t[i], c) == Some(rec);
                assert(f(s[i0], c0) == Some(rec));
                let i1 = choose|i: int| 0 <= i < t.len() && #[trigger] f(t[i], hi) is Some && f(t[i], hi).unwrap().t == rec.t;
                assert(f(s[i1], hi) == f(t[i1], hi));
                let res = scan(s, f, hi).unwrap();
                if f(g, rec.t as int) is Some {
                    assert(f(s[n], rec.t as int) == Some(res));
                    assert(f(s[n], hi) is Some && f(s[n], hi).unwrap().t == res.t);
                }
                assert forall|j: int| 0 <= j < s.len() implies no_nearer(#[trigger] f(s[j], hi), res.t as int) by {
                    if j < n {
                        assert(f(t[j], hi) == f(s[j], hi));
                    }
                }
            },
            None => {
                assert forall|j: int| 0 <= j < n implies #[trigger] f(s[j], hi) is None by {
                    assert(f(t[j], hi) is None);
                }
                if f(g, hi) is Some {
                    assert(f(s[n], hi) == scan(s, f, hi));
                }
            },
        }
    }
}

/// A surface's hit is the nearest of the hits of its leaves: none if no leaf is
/// hit, else a leaf's hit that no other leaf's hit precedes.
pub proof fn lemma_bvh_nearest(h: Hitable, r: Ray, lo: int, hi: int)
    requires
        hitable_wf(h),
        r.wf(),
        i64::MIN <= lo,
        hi <= i64::MAX,
    ensures
        hit_spec(h, r, lo, hi) is None <==> (forall|x: Hitable| leaves(h).contains(x) ==> #[trigger] hit_spec(x, r, lo, hi) is None),
        match hit_spec(h, r, lo, hi) {
            Some(rec) => {
                &&& exists|x: Hitable| leaves(h).contains(x) && #[trigger] hit_spec(x, r, lo, hi) == Some(rec)
                &&& forall|x: Hitable| leaves(h).contains(x) ==> no_nearer(#[trigger] hit_spec(x, r, lo, hi), rec.t as int)
            },
            None => true,
        },
    decreases h,
{
    if let Hitable::Bvh(n) = h {
        let l = *n.left;
        let rt = *n.right;
        lemma_bvh_nearest(l, r, lo, hi);
        lemma_bvh_nearest(rt, r, lo, hi);
        assert forall|x: Hitable| leaves(h).contains(x) <==> (leaves(l).contains(x) || leaves(rt).contains(x)) by {
            lemma_concat_contains(leaves(l), leaves(rt), x);
        }
        if !aabb_hits(n.bbox, r, lo, bump(hi)) {
            assert forall|x: Hitable| leaves(h).contains(x) implies #[trigger] hit_spec(x, r, lo, hi) is None by {
                if hit_spec(x, r, lo, hi) is Some {
                    let child = if leaves(l).contains(x) { l } else { rt };
                    let c = hit_spec(child, r, lo, hi).unwrap();
                    lemma_hit_sound(child, r, lo, hi);
                    lemma_hit_range(child, r, lo, hi);
                    lemma_hits_grow_box(bbox_of(child), n.bbox, r, lo, c.t + 1);
                    lemma_hits_grow_interval(n.bbox, r, lo, c.t + 1, bump(hi));
                }
            }
        }
    } else {
        assert(leaves(h) =~= seq![h]);
        assert(leaves(h)[0] == h);
        assert forall|x: Hitable| leaves(h).contains(x) <==> x == h by {}
    }
}

/// The hierarchy and a linear scan over the same surfaces agree on the nearest
/// hit: both find one or neither does, at the same parameter. The hierarchy
/// reports the hit of one of those surfaces over the whole window; the scan
/// reports the hit one of them gives over a window that ends at or after it.
/// Where the surfaces hold no hierarchy node and a single one of them holds the
/// nearest hit, the two reports are the same record, material included.
pub proof fn lemma_bvh_matches_linear_scan(n: BvhNode, s: Seq<Hitable>, r: Ray, lo: int, hi: int)
    requires
        hitable_wf(Hitable::Bvh(n)),
        all_wf(s),
        r.wf(),
        i64::MIN <= lo,
        hi <= i64::MAX,
        forall|x: Hitable| leaves(Hitable::Bvh(n)).contains(x) <==> leaf_of(s, x),
    ensures
        ({
            let a = hit_spec(Hitable::Bvh(n), r, lo, hi);
            let b = scan(s, |g: Hitable, c: int| hit_spec(g, r, lo, c), hi);
            &&& a is Some <==> b is Some
            &&& a is Some ==> a.unwrap().t == b.unwrap().t
            &&& a is Some ==> exists|x: Hitable| leaf_of(s, x) && #[trigger] hit_spec(x, r, lo, hi) == a
            &&& b is Some ==> exists|x: Hitable, c: int|
                leaf_of(s, x) && b.unwrap().t <= c <= hi && #[trigger] hit_spec(x, r, lo, c) == b
            &&& (a is Some && (forall|x: Hitable| leaf_of(s, x) ==> #[trigger] flat(x)) && forall|x: Hitable, y: Hitable|
                leaf_of(s, x) && leaf_of(s, y) && #[trigger] hit_spec(x, r, lo, hi) is Some
                    && #[trigger] hit_spec(y, r, lo, hi) is Some
                    && hit_spec(x, r, lo, hi).unwrap().t == a.unwrap().t
                    && hit_spec(y, r, lo, hi).unwrap().t == a.unwrap().t ==> x == y) ==> a == b
        }),
{
    let h = Hitable::Bvh(n);
    let f = |g: Hitable, c: int| hit_spec(g, r, lo, c);
    assert forall|i: int, c: int| 0 <= i < s.len() && c <= hi implies in_range(#[trigger] f(s[i], c), lo, c) by {
        lemma_hit_range(s[i], r, lo, c);
    }
    assert forall|i: int, c1: int, c2: int| 0 <= i < s.len() && c2 <= c1 <= hi implies narrow_ok(
        #[trigger] f(s[i], c1),
        #[trigger] f(s[i], c2),
        c2,
    ) by {
        lemma_hit_narrows(s[i], r, lo, c1, c2);
    }
    lemma_scan_nearest(s, f, lo, hi);
    lemma_bvh_nearest(h, r, lo, hi);
    assert forall|i: int| 0 <= i < s.len() implies #[trigger] f(s[i], hi) == hit_spec(s[i], r, lo, hi) by {}
    let a = hit_spec(h, r, lo, hi);
    let b = scan(s, f, hi);
    // Each surface of the list is described by its own leaves.
    assert forall|i: int| 0 <= i < s.len() implies {
        &&& (hit_spec(#[trigger] s[i], r, lo, hi) is None <==> (forall|x: Hitable| leaves(s[i]).contains(x) ==> hit_spec(x, r, lo, hi) is None))
        &&& match hit_spec(s[i], r, lo, hi) {
            Some(rec) => {
                &&& exists|x: Hitable| leaves(s[i]).contains(x) && #[trigger] hit_spec(x, r, lo, hi) == Some(rec)
                &&& forall|x: Hitable| leaves(s[i]).contains(x) ==> no_nearer(#[trigger] hit_spec(x, r, lo, hi), rec.t as int)
            },
            None => true,
        }
    } by {
        lemma_bvh_nearest(s[i], r, lo, hi);
    }
    if b is None {
        assert forall|x: Hitable| leaves(h).contains(x) implies #[trigger] hit_spec(x, r, lo, hi) is None by {
            assert(leaf_of(s, x));
            let i = choose|i: int| 0 <= i < s.len() && #[trigger] leaves(s[i]).contains(x);
            assert(f(s[i], hi) is None);
        }
    }
    if a is None {
        assert forall|i: int| 0 <= i < s.len() implies #[trigger] f(s[i], hi) is None by {
            if hit_spec(s[i], r, lo, hi) is Some {
                let x = choose|x: Hitable| leaves(s[i]).contains(x) && #[trigger] hit_spec(x, r, lo, hi) == hit_spec(s[i], r, lo, hi);
                assert(leaf_of(s, x));
            }
        }
    }
    if a is Some && b is Some {
        let ra = a.unwrap();
        let rb = b.unwrap();
        let xa = choose|x: Hitable| leaves(h).contains(x) && #[trigger] hit_spec(x, r, lo, hi) == Some(ra);
        assert(leaf_of(s, xa));
        // The scan's hit is no later than any surface's, hence than xa's.
        let ia = choose|i: int| 0 <= i < s.len() && #[trigger] leaves(s[i]).contains(xa);
        assert(no_nearer(hit_spec(xa, r, lo, hi), hit_spec(s[ia], r, lo, hi).unwrap().t as int));
        assert(no_nearer(f(s[ia], hi), rb.t as int));
        // Some surface is hit at the scan's parameter over the whole window.
        let i1 = choose|i: int| 0 <= i < s.len() && #[trigger] f(s[i], hi) is Some && f(s[i], hi).unwrap().t == rb.t;
        let x1 = choose|x: Hitable| leaves(s[i1]).contains(x) && #[trigger] hit_spec(x, r, lo, hi) == hit_spec(s[i1], r, lo, hi);
        assert(leaf_of(s, x1));
        assert(leaves(h).contains(x1));
        assert(no_nearer(hit_spec(x1, r, lo, hi), ra.t as int));
        assert(ra.t == rb.t);
        // The scan's record is a leaf's record over a window ending at or after it.
        let (ib, cb) = choose|i: int, c: int| 0 <= i < s.len() && rb.t <= c <= hi && #[trigger] f(s[i], c) == Some(rb);
        lemma_bvh_nearest(s[ib], r, lo, cb);
        let y = choose|x: Hitable| leaves(s[ib]).contains(x) && #[trigger] hit_spec(x, r, lo, cb) == Some(rb);
        assert(leaf_of(s, y));
        assert(exists|x: Hitable, c: int| leaf_of(s, x) && b.unwrap().t <= c <= hi && #[trigger] hit_spec(x, r, lo, c) == b);
        if (forall|x: Hitable| leaf_of(s, x) ==> #[trigger] flat(x)) && forall|x: Hitable, y: Hitable|
            leaf_of(s, x) && leaf_of(s, y) && #[trigger] hit_spec(x, r, lo, hi) is Some
                && #[trigger] hit_spec(y, r, lo, hi) is Some
                && hit_spec(x, r, lo, hi).unwrap().t == a.unwrap().t
                && hit_spec(y, r, lo, hi).unwrap().t == a.unwrap().t ==> x == y {
            assert(flat(y));
            let ib2 = choose|i: int| 0 <= i < s.len() && #[trigger] leaves(s[i]).contains(y);
            assert(hitable_wf(y)) by {
                lemma_leaves_wf(s[ib], y);
            }
            lemma_hit_narrows(y, r, lo, hi, cb);
            assert(hit_spec(y, r, lo, hi) == Some(rb));
            assert(xa == y);
        }
    }
}

/// The leaves of a well-formed surface are well formed.
pub proof fn lemma_leaves_wf(h: Hitable, x: Hitable)
    requires
        hitable_wf(h),
        leaves(h).contains(x),
    ensures
        hitable_wf(x),
    decreases h,
{
    if let Hitable::Bvh(n) = h {
        lemma_concat_contains(leaves(*n.left), leaves(*n.right), x);
        if leaves(*n.left).contains(x) {
            lemma_leaves_wf(*n.left, x);
        } else {
            lemma_leaves_wf(*n.right, x);
        }
    } else {
        assert(leaves(h) =~= seq![h]);
    }
}

fn key_exec(h: &Hitable, axis: usize) -> (k: i64)
    requires
        hitable_wf(*h),
        axis < 3,
    ensures
        k == box_key(*h, axis as int),
{
    h.bounding_box(0, 0).min.index(axis)
}

/// The surfaces of `l` ordered by the minimum corner of their boxes on `axis`.
fn sort_by_axis(l: Vec<Hitable>, axis: usize) -> (out: Vec<Hitable>)
    requires
        all_wf(l@),
        axis < 3,
    ensures
        out.len() == l.len(),
        all_wf(out@),
        sorted_by(out@, axis as int),
        forall|x: Hitable| out@.contains(x) <==> l@.contains(x),
        out@.to_multiset() == l@.to_multiset(),
        leaves_seq(out@).to_multiset() == leaves_seq(l@).to_multiset(),
{
    broadcast use vstd::multiset::group_multiset_axioms;
    broadcast use vstd::seq_lib::group_to_multiset_ensures;
    let ghost orig = l@;
    assert(leaves_seq(Seq::<Hitable>::empty()) =~= Seq::<Hitable>::empty());
    assert(Seq::<Hitable>::empty().to_multiset() =~= vstd::multiset::Multiset::empty()) by {
        assert(Seq::<Hitable>::empty().to_multiset().len() == 0);
    }
    let mut inp = l;
    let mut out: Vec<Hitable> = Vec::new();
    while inp.len() > 0
        invariant
            all_wf(inp@),
            all_wf(out@),
            axis < 3,
            out.len() + inp.len() == orig.len(),
            sorted_by(out@, axis as int),
            forall|a: int, b: int|
                0 <= a < out.len() && 0 <= b < inp.len() ==> box_key(out@[a], axis as int) <= box_key(
                    inp@[b],
                    axis as int,
                ),
            forall|x: Hitable| orig.contains(x) <==> (out@.contains(x) || inp@.contains(x)),
            out@.to_multiset().add(inp@.to_multiset()) == orig.to_multiset(),
            leaves_seq(out@).to_multiset().add(leaves_seq(inp@).to_multiset()) == leaves_seq(orig).to_multiset(),
        decreases inp.len(),
    {
        let mut m: usize = 0;
        let mut km = key_exec(&inp[0], axis);
        let mut j: usize = 1;
        while j < inp.len()
            invariant
                all_wf(inp@),
                axis < 3,
                0 <= m < j <= inp.len(),
                km == box_key(inp@[m as int], axis as int),
                forall|b: int| 0 <= b < j ==> km <= box_key(#[trigger] inp@[b], axis as int),
            decreases inp.len() - j,
        {
            let kj = key_exec(&inp[j], axis);
            if kj < km {
                m = j;
                km = kj;
            }
            j = j + 1;
        }
        let ghost before = inp@;
        let x = inp.remove(m);
        proof {
            before.remove_ensures(m as int);
            assert forall|y: Hitable| before.contains(y) <==> (y == x || inp@.contains(y)) by {
                if before.contains(y) {
                    let k = choose|k: int| 0 <= k < before.len() && before[k] == y;
                    if k < m {
                        assert(inp@[k] == y);
                    } else if k > m {
                        assert(inp@[k - 1] == y);
                    }
                }
                if inp@.contains(y) {
                    let k = choose|k: int| 0 <= k < inp@.len() && inp@[k] == y;
                    if k < m {
                        assert(before[k] == y);
                    } else {
                        assert(before[k + 1] == y);
                    }
                }
                if y == x {
                    assert(before[m as int] == y);
                }
            }
            assert forall|b: int| 0 <= b < inp@.len() implies km <= box_key(#[trigger] inp@[b], axis as int) by {
                if b < m {
                    assert(inp@[b] == before[b]);
                } else {
                    assert(inp@[b] == before[b + 1]);
                }
            }
            assert forall|i: int| 0 <= i < inp@.len() implies #[trigger] hitable_wf(inp@[i]) by {
                if i < m {
                    assert(inp@[i] == before[i]);
                } else {
                    assert(inp@[i] == before[i + 1]);
                }
            }
        }
        let ghost prev_out = out@;
        out.push(x);
        proof {
            vstd::seq_lib::to_multiset_remove(before, m as int);
            lemma_leaves_seq_remove(before, m as int);
            assert(out@.drop_last() =~= prev_out);
            assert(out@ == prev_out.push(x));
            vstd::seq_lib::to_multiset_build(prev_out, x);
            assert(out@.to_multiset() =~= prev_out.to_multiset().insert(x));
            assert(leaves_seq(out@) == leaves_seq(prev_out) + leaves(x));
            vstd::seq_lib::lemma_multiset_commutative(leaves_seq(prev_out), leaves(x));
            assert(inp@ == before.remove(m as int));
            assert(before[m as int] == x);
            assert(before.contains(x));
            vstd::seq_lib::to_multiset_contains(before, x);
            assert(before.to_multiset().count(x) > 0);
            assert(before.to_multiset() =~= inp@.to_multiset().insert(x));
            assert(out@.to_multiset().add(inp@.to_multiset()) =~= orig.to_multiset());
            assert(leaves_seq(out@).to_multiset().add(leaves_seq(inp@).to_multiset()) =~= leaves_seq(orig).to_multiset());
            assert forall|y: Hitable| out@.contains(y) <==> (prev_out.contains(y) || y == x) by {
                if out@.contains(y) {
                    let k = choose|k: int| 0 <= k < out@.len() && out@[k] == y;
                    if k < prev_out.len() {
                        assert(prev_out[k] == y);
                    }
                }
                if prev_out.contains(y) {
                    let k = choose|k: int| 0 <= k < prev_out.len() && prev_out[k] == y;
                    assert(out@[k] == y);
                }
                if y == x {
                    assert(out@[prev_out.len() as int] == y);
                }
            }
            assert forall|a: int, b: int|
                0 <= a < out.len() && 0 <= b < inp.len() implies box_key(out@[a], axis as int) <= box_key(
                    inp@[b],
                    axis as int,
                ) by {
                if a < prev_out.len() {
                    if b < m {
                        assert(inp@[b] == before[b]);
                    } else {
                        assert(inp@[b] == before[b + 1]);
                    }
                }
            }
            assert forall|a: int, b: int| 0 <= a < b < out@.len() implies box_key(out@[a], axis as int)
                <= box_key(out@[b], axis as int) by {
                if b == prev_out.len() {
                    assert(box_key(prev_out[a], axis as int) <= box_key(before[m as int], axis as int));
                }
            }
        }
    }
    proof {
        assert(inp@ =~= Seq::<Hitable>::empty());
        assert(out@.to_multiset() =~= orig.to_multiset());
        assert(leaves_seq(out@).to_multiset() =~= leaves_seq(orig).to_multiset());
        assert forall|x: Hitable| out@.contains(x) <==> orig.contains(x) by {
            if inp@.contains(x) {
                let k = choose|k: int| 0 <= k < inp@.len() && inp@[k] == x;
            }
        }
    }
    out
}

impl BvhNode {
    /// Builds the hierarchy over `l` (at least one surface): a single surface is
    /// both children, two surfaces are the two children, and a longer list is
    /// sorted on a randomly chosen axis by the minimum corner of the boxes and
    /// split at its midpoint into two subtrees. Every node's box is the union of
    /// its children's boxes. Each surface of `l` is a leaf of the tree at least as
    /// often as it occurs in `l`; it occurs more often only where a sublist of one
    /// surface made it both children of a node.
    #[verifier::rlimit(60)]
    pub fn new(l: Vec<Hitable>, time0: i64, time1: i64) -> (n: BvhNode)
        requires
            l.len() >= 1,
            all_wf(l@),
        ensures
            hitable_wf(Hitable::Bvh(n)),
            n.bbox == union_box(bbox_of(*n.left), bbox_of(*n.right)),
            (forall|i: int| 0 <= i < l.len() ==> tight(#[trigger] l@[i])) ==> tight(Hitable::Bvh(n)),
            l.len() == 1 ==> *n.left == l@[0] && *n.right == l@[0],
            l.len() == 2 ==> ((*n.left == l@[0] && *n.right == l@[1]) || (*n.left == l@[1] && *n.right == l@[0])),
            l.len() == 2 ==> exists|axis: int| 0 <= axis < 3 && box_key(*n.left, axis) <= box_key(*n.right, axis),
            l.len() == 2 ==> leaves(Hitable::Bvh(n)).to_multiset() == leaves_seq(l@).to_multiset(),
            leaves_seq(l@).to_multiset().subset_of(leaves(Hitable::Bvh(n)).to_multiset()),
            forall|x: Hitable| leaves(Hitable::Bvh(n)).contains(x) <==> leaf_of(l@, x),
        decreases l.len(),
    {
        broadcast use vstd::multiset::group_multiset_axioms;
        let ghost orig = l@;
        let axis = random_below(3) as usize;
        let mut l = sort_by_axis(l, axis);
        let ghost sorted = l@;
        proof {
            lemma_leaf_of_same(l@, orig);
            assert(leaves_seq(Seq::<Hitable>::empty()) =~= Seq::<Hitable>::empty());
            if forall|i: int| 0 <= i < orig.len() ==> tight(#[trigger] orig[i]) {
                assert forall|i: int| 0 <= i < sorted.len() implies tight(#[trigger] sorted[i]) by {
                    assert(sorted.contains(sorted[i]));
                    let k = choose|k: int| 0 <= k < orig.len() && orig[k] == sorted[i];
                }
            }
        }
        let len = l.len();
        let left: Hitable;
        let right: Hitable;
        if len == 1 {
            let ghost s = l@;
            let a = l.pop().unwrap();
            assert(hitable_wf(s[0]));
            proof {
                assert(s.contains(a));
                assert(orig.contains(a));
                let k = choose|k: int| 0 <= k < orig.len() && orig[k] == a;
                assert(orig[0] == a);
            }
            right = a.copy();
            left = a;
            proof {
                assert(s.drop_last() =~= Seq::<Hitable>::empty());
                assert(leaves_seq(s) =~= leaves(a));
                vstd::seq_lib::lemma_multiset_commutative(leaves(a), leaves(a));
                assert forall|x: Hitable| leaf_of(s, x) <==> leaves(left).contains(x) by {
                    if leaves(left).contains(x) {
                        assert(leaves(s[0]).contains(x));
                    }
                }
            }
        } else if len == 2 {
            let ghost s = l@;
            let b = l.pop().unwrap();
            let a = l.pop().unwrap();
            assert(hitable_wf(s[0]) && hitable_wf(s[1]));
            left = a;
            right = b;
            proof {
                assert(s.drop_last().drop_last() =~= Seq::<Hitable>::empty());
                assert(s.drop_last().last() == a);
                assert(leaves_seq(s.drop_last()) =~= leaves(a));
                assert(leaves_seq(s) =~= leaves(a) + leaves(b));
                lemma_two_perm(s, orig);
                assert(sorted_by(s, axis as int));
                assert(box_key(a, axis as int) <= box_key(b, axis as int));
                assert forall|x: Hitable| leaf_of(s, x) <==> (leaves(left).contains(x) || leaves(right).contains(x)) by {
                    if leaves(left).contains(x) {
                        assert(leaves(s[0]).contains(x));
                    }
                    if leaves(right).contains(x) {
                        assert(leaves(s[1]).contains(x));
                    }
                }
            }
        } else {
            let ghost s = l@;
            let right_list = l.split_off(len / 2);
            proof {
                assert forall|x: Hitable| leaf_of(s, x) <==> (leaf_of(l@, x) || leaf_of(right_list@, x)) by {
                    lemma_leaf_of_split(s, (len / 2) as int, x);
                }
                assert(all_wf(l@));
                assert(all_wf(right_list@));
                assert(s =~= l@ + right_list@);
                lemma_leaves_seq_concat(l@, right_list@);
                vstd::seq_lib::lemma_multiset_commutative(leaves_seq(l@), leaves_seq(right_list@));
                assert forall|i: int| 0 <= i < l@.len() implies #[trigger] l@[i] == s[i] by {}
                assert forall|i: int| 0 <= i < right_list@.len() implies #[trigger] right_list@[i] == s[i + (len / 2) as int] by {}
            }
            let ghost ll = l@;
            let ghost rl = right_list@;
            left = Hitable::Bvh(BvhNode::new(l, time0, time1));
            right = Hitable::Bvh(BvhNode::new(right_list, time0, time1));
        }
        let box_left = left.bounding_box(time0, time1);
        let box_right = right.bounding_box(time0, time1);
        let bbox = surrounding_box(&box_left, &box_right);
        proof {
            vstd::seq_lib::lemma_multiset_commutative(leaves(left), leaves(right));
            lemma_surrounding_box_contains(box_left, box_right);
            assert forall|x: Hitable| leaves(Hitable::Bvh(BvhNode { left: Box::new(left), right: Box::new(right), bbox })).contains(x)
                <==> (leaves(left).contains(x) || leaves(right).contains(x)) by {
                lemma_concat_contains(leaves(left), leaves(right), x);
            }
        }
        BvhNode { left: Box::new(left), right: Box::new(right), bbox }
    }

    /// The nearest hit below this node: none if the ray misses the node's box
    /// (tested up to one past `t_max`, so that a hit exactly at `t_max` is not
    /// pruned), else the nearer of the two children's hits.
    pub fn hit(&self, r: &Ray, t_min: i64, t_max: i64) -> (res: Option<HitRecord>)
        requires
            hitable_wf(Hitable::Bvh(*self)),
            r.wf(),
        ensures
            res == hit_spec(Hitable::Bvh(*self), *r, t_min as int, t_max as int),
        decreases *self,
    {
        let upper: i64 = if t_max < i64::MAX { t_max + 1 } else { t_max };
        if self.bbox.hit(r, t_min, upper) {
            let hit_left = self.left.hit(r, t_min, t_max);
            let hit_right = self.right.hit(r, t_min, t_max);
            match (hit_left, hit_right) {
                (Some(lrec), Some(rrec)) => if lrec.t < rrec.t {
                    hit_left
                } else {
                    hit_right
                },
                (Some(_), None) => hit_left,
                (None, _) => hit_right,
            }
        } else {
            None
        }
    }

    pub fn bounding_box(&self) -> (b: Aabb)
        ensures
            b == self.bbox,
    {
        self.bbox
    }
}

} // verus!
