use vstd::prelude::*;

verus! {

/// `intersect` can be called on every position, and whatever it returns for
/// position `i` is `hits(i)`.
pub open spec fn agrees_hits<H, F: Fn(usize) -> Option<H>>(intersect: F, hits: spec_fn(usize) -> Option<H>) -> bool {
    &&& forall|i: usize| #[trigger] call_requires(intersect, (i,))
    &&& forall|i: usize, r: Option<H>| #[trigger] call_ensures(intersect, (i,), r) ==> r == hits(i)
}

/// `closer` can be called on every pair of hits, and whatever it returns for
/// `a` and `b` is `lt(a, b)`.
pub open spec fn agrees_order<H, C: Fn(&H, &H) -> bool>(closer: C, lt: spec_fn(H, H) -> bool) -> bool {
    &&& forall|a: &H, b: &H| #[trigger] call_requires(closer, (a, b))
    &&& forall|a: &H, b: &H, r: bool| #[trigger] call_ensures(closer, (a, b), r) ==> r == lt(*a, *b)
}

/// The nearest of the hits of the primitives at `positions`, taken in order:
/// a hit replaces the one kept so far only when it is strictly nearer, so the
/// first of equally near hits is kept.
pub open spec fn nearest_of<H>(positions: Seq<usize>, hits: spec_fn(usize) -> Option<H>, lt: spec_fn(H, H) -> bool) -> Option<H>
    decreases positions.len(),
{
    if positions.len() == 0 {
        None
    } else {
        let kept = nearest_of(positions.drop_last(), hits, lt);
        match hits(positions.last()) {
            None => kept,
            Some(h) => match kept {
                None => Some(h),
                Some(b) => if lt(h, b) {
                    Some(h)
                } else {
                    Some(b)
                },
            },
        }
    }
}

/// The nearest hit among the primitives at `candidates`. `intersect(i)` tests
/// the primitive at position `i`; `closer(a, b)` says whether hit `a` is
/// strictly nearer than hit `b`.
pub fn nearest<H, F, C>(candidates: &Vec<usize>, intersect: &F, closer: &C) -> (r: Option<H>)
    where
        F: Fn(usize) -> Option<H>,
        C: Fn(&H, &H) -> bool,
    requires
        forall|i: usize| #[trigger] call_requires(*intersect, (i,)),
        forall|a: &H, b: &H| #[trigger] call_requires(*closer, (a, b)),
    ensures
        forall|hits: spec_fn(usize) -> Option<H>, lt: spec_fn(H, H) -> bool|
            #[trigger] agrees_hits(*intersect, hits) && #[trigger] agrees_order(*closer, lt)
                ==> r == nearest_of(candidates@, hits, lt),
{
    let mut best: Option<H> = None;
    let mut k: usize = 0;
    while k < candidates.len()
        invariant
            k <= candidates@.len(),
            forall|i: usize| #[trigger] call_requires(*intersect, (i,)),
            forall|a: &H, b: &H| #[trigger] call_requires(*closer, (a, b)),
            forall|hits: spec_fn(usize) -> Option<H>, lt: spec_fn(H, H) -> bool|
                #[trigger] agrees_hits(*intersect, hits) && #[trigger] agrees_order(*closer, lt)
                    ==> best == nearest_of(candidates@.take(k as int), hits, lt),
        decreases candidates@.len() - k,
    {
        let ghost before = best;
        let found = intersect(candidates[k]);
        let ghost got = found;
        let ghost mut took = false;
        match found {
            None => {},
            Some(h) => {
                let replace = match &best {
                    None => true,
                    Some(b) => closer(&h, b),
                };
                if replace {
                    best = Some(h);
                }
            },
        }
        proof {
            assert forall|hits: spec_fn(usize) -> Option<H>, lt: spec_fn(H, H) -> bool|
                #[trigger] agrees_hits(*intersect, hits) && #[trigger] agrees_order(*closer, lt)
                    implies best == nearest_of(candidates@.take(k + 1), hits, lt) by {
                assert(candidates@.take(k + 1).drop_last() =~= candidates@.take(k as int));
                assert(candidates@.take(k + 1).last() == candidates@[k as int]);
            }
        }
        k = k + 1;
    }
    assert(candidates@.take(k as int) =~= candidates@);
    best
}

/// `lt` is a strict order: nothing is below itself, and it is transitive.
pub open spec fn strict_order<H>(lt: spec_fn(H, H) -> bool) -> bool {
    &&& forall|a: H| !#[trigger] lt(a, a)
    &&& forall|a: H, b: H, c: H| #[trigger] lt(a, b) && #[trigger] lt(b, c) ==> lt(a, c)
}

/// What the nearest of the hits at `positions` is: none exactly when no
/// position has a hit; otherwise the hit of one of them, and no hit of any
/// of them is strictly nearer.
pub proof fn lemma_nearest_of<H>(positions: Seq<usize>, hits: spec_fn(usize) -> Option<H>, lt: spec_fn(H, H) -> bool)
    requires
        strict_order(lt),
    ensures
        nearest_of(positions, hits, lt) is None <==> forall|k: int| 0 <= k < positions.len() ==> #[trigger] hits(positions[k]) is None,
        nearest_of(positions, hits, lt) is Some ==> {
            &&& exists|k: int| 0 <= k < positions.len() && #[trigger] hits(positions[k]) == nearest_of(positions, hits, lt)
            &&& forall|k: int| 0 <= k < positions.len() && #[trigger] hits(positions[k]) is Some
                ==> !lt(hits(positions[k])->Some_0, nearest_of(positions, hits, lt)->Some_0)
        },
    decreases positions.len(),
{
    if positions.len() > 0 {
        let rest = positions.drop_last();
        lemma_nearest_of(rest, hits, lt);
        let n = positions.len() - 1;
        assert forall|k: int| 0 <= k < n implies positions[k] == #[trigger] rest[k] by {}
        let kept = nearest_of(rest, hits, lt);
        let r = nearest_of(positions, hits, lt);
        if kept is Some {
            let j = choose|k: int| 0 <= k < rest.len() && #[trigger] hits(rest[k]) == kept;
            assert(hits(positions[j]) == kept);
        }
        if r is Some {
            if hits(positions[n]) == r {
            } else {
                let j = choose|k: int| 0 <= k < rest.len() && #[trigger] hits(rest[k]) == kept;
                assert(hits(positions[j]) == r);
            }
            assert forall|k: int| 0 <= k < positions.len() && #[trigger] hits(positions[k]) is Some
                implies !lt(hits(positions[k])->Some_0, r->Some_0) by {
                if k < n {
                    assert(hits(rest[k]) is Some);
                    let g = hits(rest[k])->Some_0;
                    assert(!lt(g, kept->Some_0));
                    if r != kept {
                        let h = hits(positions[n])->Some_0;
                        assert(lt(h, kept->Some_0));
                        if lt(g, h) {
                            assert(lt(g, kept->Some_0));
                        }
                    }
                }
            }
        }
        if r is None {
            assert forall|k: int| 0 <= k < positions.len() implies #[trigger] hits(positions[k]) is None by {
                if k < n {
                    assert(hits(rest[k]) is None);
                }
            }
        }
    }
}

} // verus!
