use vstd::prelude::*;

verus! {

/// `dst` lists the items of `src`, each exactly once: `dst[a]` is
/// `src[origin[a]]`, and `origin` is a permutation of `src`'s indices.
pub open spec fn arranged_by<T>(src: Seq<T>, dst: Seq<T>, origin: Seq<int>) -> bool {
    &&& origin.len() == dst.len()
    &&& dst.len() == src.len()
    &&& forall|a: int| 0 <= a < dst.len() ==> 0 <= #[trigger] origin[a] < src.len() && dst[a] == src[origin[a]]
    &&& forall|a: int, b: int| 0 <= a < b < origin.len() ==> #[trigger] origin[a] != #[trigger] origin[b]
    &&& forall|k: int| 0 <= k < src.len() ==> #[trigger] origin.contains(k)
}

/// `dst` is a rearrangement of `src`.
pub open spec fn is_arrangement<T>(src: Seq<T>, dst: Seq<T>) -> bool {
    exists|origin: Seq<int>| arranged_by(src, dst, origin)
}

/// `dst` holds the items `src[first..]`, each once, `dst[a]` being
/// `src[origin[a]]`.
pub open spec fn arranged_suffix<T>(src: Seq<T>, first: int, dst: Seq<T>, origin: Seq<int>) -> bool {
    &&& origin.len() == dst.len()
    &&& dst.len() == src.len() - first
    &&& forall|a: int| 0 <= a < dst.len() ==> first <= #[trigger] origin[a] < src.len() && dst[a] == src[origin[a]]
    &&& forall|a: int, b: int| 0 <= a < b < origin.len() ==> #[trigger] origin[a] != #[trigger] origin[b]
    &&& forall|k: int| first <= k < src.len() ==> #[trigger] origin.contains(k)
}

/// Inserting `src[first - 1]` anywhere extends an arrangement of
/// `src[first..]` to one of `src[first - 1..]`.
pub proof fn lemma_arranged_insert<T>(src: Seq<T>, first: int, dst: Seq<T>, origin: Seq<int>, p: int)
    requires
        1 <= first <= src.len(),
        0 <= p <= dst.len(),
        arranged_suffix(src, first, dst, origin),
    ensures
        arranged_suffix(src, first - 1, dst.insert(p, src[first - 1]), origin.insert(p, first - 1)),
{
    let d = dst.insert(p, src[first - 1]);
    let o = origin.insert(p, first - 1);
    assert forall|a: int| 0 <= a < d.len() implies first - 1 <= #[trigger] o[a] < src.len() && d[a] == src[o[a]] by {
        if a < p {
            assert(o[a] == origin[a] && d[a] == dst[a]);
        } else if a > p {
            assert(o[a] == origin[a - 1] && d[a] == dst[a - 1]);
        }
    }
    assert forall|a: int, b: int| 0 <= a < b < o.len() implies #[trigger] o[a] != #[trigger] o[b] by {
        let sa = if a < p { a } else { a - 1 };
        let sb = if b < p { b } else { b - 1 };
        if a != p && b != p {
            assert(o[a] == origin[sa] && o[b] == origin[sb]);
        } else if a == p {
            assert(o[b] == origin[sb]);
        } else {
            assert(o[a] == origin[sa]);
        }
    }
    assert forall|k: int| first - 1 <= k < src.len() implies #[trigger] o.contains(k) by {
        if k >= first {
            assert(origin.contains(k));
            let a0 = choose|a: int| 0 <= a < origin.len() && #[trigger] origin[a] == k;
            if a0 < p {
                assert(o[a0] == origin[a0]);
            } else {
                assert(o[a0 + 1] == origin[a0]);
            }
        } else {
            assert(o[p] == first - 1);
        }
    }
}

pub proof fn lemma_arranged_full<T>(src: Seq<T>, dst: Seq<T>, origin: Seq<int>)
    requires
        arranged_suffix(src, 0, dst, origin),
    ensures
        is_arrangement(src, dst),
{
    assert(arranged_by(src, dst, origin));
}

pub proof fn lemma_arranged_empty<T>(src: Seq<T>)
    ensures
        arranged_suffix(src, src.len() as int, Seq::<T>::empty(), Seq::<int>::empty()),
{
}

} // verus!
