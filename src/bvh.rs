use vstd::prelude::*;
use crate::nearest::{agrees_hits, agrees_order, lemma_nearest_of, nearest, nearest_of, strict_order};

verus! {

broadcast use vstd::seq_lib::group_to_multiset_ensures, vstd::multiset::group_multiset_axioms;

/// One primitive as the hierarchy sees it: its bound and its position in the
/// scene's list of primitives.
pub struct Leaf<B> {
    pub bound: B,
    pub index: usize,
}

/// A subtree of the hierarchy. An internal node has two subtrees, each
/// holding at least one leaf, and a bound joined from their bounds.
pub enum Branch<B> {
    Leaf(Leaf<B>),
    Node { bound: B, left: Box<Branch<B>>, right: Box<Branch<B>> },
}

/// Why a hierarchy could not be built.
#[derive(Debug, PartialEq, Eq, Structural)]
pub enum BuildError {
    /// There was no primitive to build it over.
    Empty,
    /// A partition chosen for a node was not one flag per primitive with
    /// both sides non-empty.
    InvalidPartition,
}

/// `hit` can be called on every bound, and whatever it returns for a bound
/// `b` is `pred(b)`.
pub open spec fn agrees<B, F: Fn(&B) -> bool>(hit: F, pred: spec_fn(B) -> bool) -> bool {
    &&& forall|b: &B| #[trigger] call_requires(hit, (b,))
    &&& forall|b: &B, r: bool| #[trigger] call_ensures(hit, (b,), r) ==> r == pred(*b)
}

/// `mask` has one flag per primitive, and puts at least one primitive on
/// each side.
pub open spec fn splits(mask: Seq<bool>, n: nat) -> bool {
    &&& mask.len() == n
    &&& exists|i: int| 0 <= i < n && mask[i]
    &&& exists|i: int| 0 <= i < n && !mask[i]
}

/// The primitives whose own bound `pred` accepts, in the order of `items`:
/// what testing every primitive finds.
pub open spec fn scan<B>(items: Seq<Leaf<B>>, pred: spec_fn(B) -> bool) -> Seq<usize> {
    items.filter(accepted(pred)).map_values(|l: Leaf<B>| l.index)
}

/// Whether `pred` accepts a leaf's bound.
pub open spec fn accepted<B>(pred: spec_fn(B) -> bool) -> spec_fn(Leaf<B>) -> bool {
    |l: Leaf<B>| pred(l.bound)
}

impl<B> Branch<B> {
    pub open spec fn spec_bound(&self) -> B {
        match self {
            Branch::Leaf(l) => l.bound,
            Branch::Node { bound, .. } => *bound,
        }
    }

    /// The leaves, left to right.
    pub open spec fn items(self) -> Seq<Leaf<B>>
        decreases self,
    {
        match self {
            Branch::Leaf(l) => seq![l],
            Branch::Node { left, right, .. } => left.items() + right.items(),
        }
    }

    /// The primitives whose leaf is reached by a descent that enters a
    /// subtree only when `pred` accepts its bound.
    pub open spec fn reached(self, pred: spec_fn(B) -> bool) -> Seq<usize>
        decreases self,
    {
        if !pred(self.spec_bound()) {
            Seq::empty()
        } else {
            match self {
                Branch::Leaf(l) => seq![l.index],
                Branch::Node { left, right, .. } => left.reached(pred) + right.reached(pred),
            }
        }
    }

    /// Wherever `pred` accepts the bound of a subtree, it accepts the bound
    /// of the node above it too, as a box test does on boxes that enclose
    /// their children.
    pub open spec fn nested(self, pred: spec_fn(B) -> bool) -> bool
        decreases self,
    {
        match self {
            Branch::Leaf(_) => true,
            Branch::Node { bound, left, right } => {
                &&& pred(left.spec_bound()) ==> pred(bound)
                &&& pred(right.spec_bound()) ==> pred(bound)
                &&& left.nested(pred)
                &&& right.nested(pred)
            },
        }
    }

    /// Each internal node's bound is what `join` gave for the bounds of its
    /// two subtrees.
    pub open spec fn joined<J: Fn(&B, &B) -> B>(self, join: J) -> bool
        decreases self,
    {
        match self {
            Branch::Leaf(_) => true,
            Branch::Node { bound, left, right } => {
                &&& call_ensures(join, (&left.spec_bound(), &right.spec_bound()), bound)
                &&& left.joined(join)
                &&& right.joined(join)
            },
        }
    }

    /// The bound of this subtree.
    pub fn bound(&self) -> (r: &B)
        ensures
            *r == self.spec_bound(),
    {
        match self {
            Branch::Leaf(l) => &l.bound,
            Branch::Node { bound, .. } => bound,
        }
    }

    /// Appends to `candidate` the primitives of this subtree whose leaf a
    /// descent reaches, entering a subtree only where `hit` accepts its bound.
    pub fn may_intersect<F: Fn(&B) -> bool>(&self, hit: &F, candidate: &mut Vec<usize>)
        requires
            forall|b: &B| #[trigger] call_requires(*hit, (b,)),
        ensures
            forall|pred: spec_fn(B) -> bool| #[trigger] agrees(*hit, pred)
                ==> final(candidate)@ == old(candidate)@ + self.reached(pred),
        decreases self,
    {
        let ghost start = candidate@;
        let inside = hit(self.bound());
        if !inside {
            assert forall|pred: spec_fn(B) -> bool| #[trigger] agrees(*hit, pred) implies candidate@
                == start + self.reached(pred) by {
                assert(candidate@ =~= start + self.reached(pred));
            }
            return;
        }
        match self {
            Branch::Leaf(l) => {
                candidate.push(l.index);
                assert forall|pred: spec_fn(B) -> bool| #[trigger] agrees(*hit, pred) implies candidate@
                    == start + self.reached(pred) by {
                    assert(candidate@ =~= start + self.reached(pred));
                }
            },
            Branch::Node { left, right, .. } => {
                left.may_intersect(hit, candidate);
                let ghost middle = candidate@;
                right.may_intersect(hit, candidate);
                assert forall|pred: spec_fn(B) -> bool| #[trigger] agrees(*hit, pred) implies candidate@
                    == start + self.reached(pred) by {
                    assert(middle == start + left.reached(pred));
                    assert(candidate@ == middle + right.reached(pred));
                    assert(candidate@ =~= start + self.reached(pred));
                }
            },
        }
    }
}

/// Builds a hierarchy over `leaves`. At each node with two or more leaves,
/// `plan` flags the leaves that go to the left subtree; `join` gives a node's
/// bound from the bounds of its two subtrees.
pub fn construct<B, P, J>(leaves: Vec<Leaf<B>>, plan: &P, join: &J) -> (r: Result<Branch<B>, BuildError>)
    where
        P: Fn(&Vec<Leaf<B>>) -> Vec<bool>,
        J: Fn(&B, &B) -> B,
    requires
        forall|v: &Vec<Leaf<B>>| #[trigger] call_requires(*plan, (v,)),
        forall|a: &B, b: &B| #[trigger] call_requires(*join, (a, b)),
    ensures
        r == Err::<Branch<B>, BuildError>(BuildError::Empty) <==> leaves@.len() == 0,
        r is Ok ==> r->Ok_0.items().to_multiset() == leaves@.to_multiset(),
        r is Ok ==> r->Ok_0.joined(*join),
        leaves@.len() == 1 ==> r == Ok::<Branch<B>, BuildError>(Branch::Leaf(leaves@[0])),
        leaves@.len() > 0 && (forall|v: &Vec<Leaf<B>>, m: Vec<bool>|
            v@.len() >= 2 && #[trigger] call_ensures(*plan, (v,), m) ==> splits(m@, v@.len())) ==> r is Ok,
    decreases leaves@.len(),
{
    let ghost orig = leaves@;
    let n = leaves.len();
    let mut leaves = leaves;
    if n == 0 {
        return Err(BuildError::Empty);
    }
    if n == 1 {
        let only = leaves.pop().unwrap();
        assert(orig =~= Seq::<Leaf<B>>::empty().push(only));
        assert(orig.to_multiset() == Seq::<Leaf<B>>::empty().push(only).to_multiset());
        return Ok(Branch::Leaf(only));
    }
    let mask = plan(&leaves);
    if mask.len() != n {
        return Err(BuildError::InvalidPartition);
    }
    let mut left: Vec<Leaf<B>> = Vec::new();
    let mut right: Vec<Leaf<B>> = Vec::new();
    let mut k: usize = n;
    while k > 0
        invariant
            k <= n,
            n == orig.len(),
            mask@.len() == n,
            leaves@ == orig.take(k as int),
            left@.to_multiset().add(right@.to_multiset()).add(leaves@.to_multiset()) == orig.to_multiset(),
            left@.len() > 0 <==> exists|j: int| k <= j < n && mask@[j],
            right@.len() > 0 <==> exists|j: int| k <= j < n && !mask@[j],
            left@.len() + right@.len() == n - k,
        decreases k,
    {
        let ghost before = leaves@;
        let item = leaves.pop().unwrap();
        assert(before == leaves@.push(item));
        k = k - 1;
        assert(leaves@ =~= orig.take(k as int));
        if mask[k] {
            left.push(item);
        } else {
            right.push(item);
        }
    }
    assert(orig.take(0) =~= Seq::<Leaf<B>>::empty());
    if left.len() == 0 || right.len() == 0 {
        return Err(BuildError::InvalidPartition);
    }
    let ghost left_items = left@;
    let ghost right_items = right@;
    let l = match construct(left, plan, join) {
        Ok(t) => t,
        Err(_) => return Err(BuildError::InvalidPartition),
    };
    let rt = match construct(right, plan, join) {
        Ok(t) => t,
        Err(_) => return Err(BuildError::InvalidPartition),
    };
    let bound = join(l.bound(), rt.bound());
    let r = Branch::Node { bound, left: Box::new(l), right: Box::new(rt) };
    proof {
        vstd::seq_lib::lemma_multiset_commutative(l.items(), rt.items());
    }
    Ok(r)
}


/// Each of `bounds` as a leaf numbered by its position.
pub open spec fn numbered<B>(bounds: Seq<B>) -> Seq<Leaf<B>> {
    Seq::new(bounds.len(), |i: int| Leaf { bound: bounds[i], index: i as usize })
}

/// A bounding volume hierarchy over a list of primitives, each known here by
/// its bound `B` and its position in the list.
pub struct Bvh<B> {
    root: Branch<B>,
}

impl<B> Bvh<B> {
    pub closed spec fn spec_root(&self) -> Branch<B> {
        self.root
    }

    /// Builds the hierarchy over `bounds`, the bound of each primitive in
    /// list order: see [`construct`] for `plan` and `join`.
    pub fn new<P, J>(bounds: Vec<B>, plan: &P, join: &J) -> (r: Result<Bvh<B>, BuildError>)
        where
            P: Fn(&Vec<Leaf<B>>) -> Vec<bool>,
            J: Fn(&B, &B) -> B,
        requires
            forall|v: &Vec<Leaf<B>>| #[trigger] call_requires(*plan, (v,)),
            forall|a: &B, b: &B| #[trigger] call_requires(*join, (a, b)),
        ensures
            r == Err::<Bvh<B>, BuildError>(BuildError::Empty) <==> bounds@.len() == 0,
            r is Ok ==> r->Ok_0.spec_root().items().to_multiset() == numbered(bounds@).to_multiset(),
            r is Ok ==> r->Ok_0.spec_root().joined(*join),
            bounds@.len() > 0 && (forall|v: &Vec<Leaf<B>>, m: Vec<bool>|
                v@.len() >= 2 && #[trigger] call_ensures(*plan, (v,), m) ==> splits(m@, v@.len())) ==> r is Ok,
    {
        let ghost orig = bounds@;
        let mut bounds = bounds;
        let mut leaves: Vec<Leaf<B>> = Vec::new();
        let mut k: usize = bounds.len();
        while k > 0
            invariant
                k <= orig.len(),
                bounds@ == orig.take(k as int),
                leaves@.len() == orig.len() - k,
                leaves@.to_multiset().add(numbered(bounds@).to_multiset()) == numbered(orig).to_multiset(),
            decreases k,
        {
            let ghost before = bounds@;
            let bound = bounds.pop().unwrap();
            k = k - 1;
            assert(bounds@ =~= orig.take(k as int));
            let leaf = Leaf { bound, index: k };
            assert(numbered(before) =~= numbered(bounds@).push(leaf));
            leaves.push(leaf);
        }
        assert(numbered(bounds@) =~= Seq::<Leaf<B>>::empty());
        match construct(leaves, plan, join) {
            Ok(root) => Ok(Bvh { root }),
            Err(e) => Err(e),
        }
    }

    /// The root of the hierarchy.
    pub fn root(&self) -> (r: &Branch<B>)
        ensures
            *r == self.spec_root(),
    {
        &self.root
    }

    /// The bound of the whole hierarchy.
    pub fn bound(&self) -> (r: &B)
        ensures
            *r == self.spec_root().spec_bound(),
    {
        self.root.bound()
    }

    /// The nearest hit of a ray: `hit` is its box test, `intersect(i)` tests
    /// the primitive at position `i`, `closer(a, b)` says whether hit `a` is
    /// strictly nearer than hit `b`. Only the primitives that the descent
    /// reaches are tested, in the order of the leaves.
    pub fn nearest_hit<H, F, G, C>(&self, hit: &F, intersect: &G, closer: &C) -> (r: Option<H>)
        where
            F: Fn(&B) -> bool,
            G: Fn(usize) -> Option<H>,
            C: Fn(&H, &H) -> bool,
        requires
            forall|b: &B| #[trigger] call_requires(*hit, (b,)),
            forall|i: usize| #[trigger] call_requires(*intersect, (i,)),
            forall|a: &H, b: &H| #[trigger] call_requires(*closer, (a, b)),
        ensures
            forall|pred: spec_fn(B) -> bool, hits: spec_fn(usize) -> Option<H>, lt: spec_fn(H, H) -> bool|
                #[trigger] agrees(*hit, pred) && #[trigger] agrees_hits(*intersect, hits) && #[trigger] agrees_order(
                    *closer,
                    lt,
                ) ==> r == nearest_of(self.spec_root().reached(pred), hits, lt),
    {
        let candidate = self.candidates(hit);
        nearest(&candidate, intersect, closer)
    }

    /// The positions of the primitives that a descent reaches, entering a
    /// subtree only where `hit` accepts its bound: the candidates for the
    /// nearest hit of a ray whose box test is `hit`.
    pub fn candidates<F: Fn(&B) -> bool>(&self, hit: &F) -> (r: Vec<usize>)
        requires
            forall|b: &B| #[trigger] call_requires(*hit, (b,)),
        ensures
            forall|pred: spec_fn(B) -> bool| #[trigger] agrees(*hit, pred)
                ==> r@ == self.spec_root().reached(pred),
    {
        let mut candidate: Vec<usize> = Vec::new();
        self.root.may_intersect(hit, &mut candidate);
        assert forall|pred: spec_fn(B) -> bool| #[trigger] agrees(*hit, pred) implies candidate@
            == self.spec_root().reached(pred) by {
            assert(candidate@ =~= self.spec_root().reached(pred));
        }
        candidate
    }
}

/// Where no bound test passes at a node, none passes at any leaf below it.
proof fn lemma_nothing_below<B>(t: Branch<B>, pred: spec_fn(B) -> bool)
    requires
        t.nested(pred),
        !pred(t.spec_bound()),
    ensures
        scan(t.items(), pred) == Seq::<usize>::empty(),
    decreases t,
{
    let acc = accepted(pred);
    match t {
        Branch::Leaf(l) => {
            reveal_with_fuel(Seq::filter, 2);
            assert(seq![l].filter(acc) =~= Seq::<Leaf<B>>::empty());
            assert(scan(t.items(), pred) =~= Seq::<usize>::empty());
        },
        Branch::Node { left, right, .. } => {
            lemma_nothing_below(*left, pred);
            lemma_nothing_below(*right, pred);
            Seq::filter_distributes_over_add(left.items(), right.items(), acc);
            assert(scan(left.items(), pred).len() == left.items().filter(acc).len());
            assert(scan(right.items(), pred).len() == right.items().filter(acc).len());
            assert(t.items().filter(acc) =~= Seq::<Leaf<B>>::empty());
            assert(scan(t.items(), pred) =~= Seq::<usize>::empty());
        },
    }
}

/// The descent finds exactly the primitives that testing every primitive's
/// own bound would find, in the same order, when each node's bound passes
/// the test wherever a bound below it does. The nearest pred among the
/// candidates is therefore the nearest pred among all primitives.
pub proof fn lemma_descent_matches_scan<B>(t: Branch<B>, pred: spec_fn(B) -> bool)
    requires
        t.nested(pred),
    ensures
        t.reached(pred) == scan(t.items(), pred),
    decreases t,
{
    let acc = accepted(pred);
    let idx = |l: Leaf<B>| l.index;
    if !pred(t.spec_bound()) {
        lemma_nothing_below(t, pred);
    } else {
        match t {
            Branch::Leaf(l) => {
                reveal_with_fuel(Seq::filter, 2);
                assert(seq![l].filter(acc) =~= seq![l]);
                assert(scan(t.items(), pred) =~= seq![l.index]);
            },
            Branch::Node { left, right, .. } => {
                lemma_descent_matches_scan(*left, pred);
                lemma_descent_matches_scan(*right, pred);
                Seq::filter_distributes_over_add(left.items(), right.items(), acc);
                let a = left.items().filter(acc);
                let b = right.items().filter(acc);
                assert((a + b).map_values(idx) =~= a.map_values(idx) + b.map_values(idx));
            },
        }
    }
}

/// `join` gives a bound that `pred` accepts wherever it accepts either of
/// the two bounds joined, as the smallest box holding two boxes does for a
/// box test.
pub open spec fn encloses<B, J: Fn(&B, &B) -> B>(join: J, pred: spec_fn(B) -> bool) -> bool {
    forall|a: &B, b: &B, c: B| #[trigger] call_ensures(join, (a, b), c) ==> {
        &&& pred(*a) ==> pred(c)
        &&& pred(*b) ==> pred(c)
    }
}

/// A hierarchy whose node bounds were joined by an enclosing `join` is
/// nested for `hit`.
pub proof fn lemma_joined_is_nested<B, J: Fn(&B, &B) -> B>(t: Branch<B>, join: J, pred: spec_fn(B) -> bool)
    requires
        t.joined(join),
        encloses(join, pred),
    ensures
        t.nested(pred),
    decreases t,
{
    if let Branch::Node { bound, left, right } = t {
        assert(call_ensures(join, (&left.spec_bound(), &right.spec_bound()), bound));
        lemma_joined_is_nested(*left, join, pred);
        lemma_joined_is_nested(*right, join, pred);
    }
}

/// For a hierarchy built with an enclosing `join`, the candidates of a ray
/// are exactly the primitives whose own bound its box test accepts: the
/// nearest hit among them is the nearest hit of a search over every
/// primitive, and there is none exactly when that search finds none.
pub proof fn lemma_candidates_match_exhaustive_search<B, J: Fn(&B, &B) -> B>(
    bvh: Bvh<B>,
    join: J,
    pred: spec_fn(B) -> bool,
)
    requires
        bvh.spec_root().joined(join),
        encloses(join, pred),
    ensures
        bvh.spec_root().reached(pred) == scan(bvh.spec_root().items(), pred),
{
    lemma_joined_is_nested(bvh.spec_root(), join, pred);
    lemma_descent_matches_scan(bvh.spec_root(), pred);
}

/// The positions of a list of `n` primitives, in list order: the order in
/// which an exhaustive search tests them.
pub open spec fn every_position(n: nat) -> Seq<usize> {
    Seq::new(n, |i: int| i as usize)
}

/// For a hierarchy over `bounds` built with an enclosing `join`, where a
/// primitive can only be hit by a ray whose box test accepts its bound, the
/// nearest hit among the candidates is as near as the nearest hit of an
/// exhaustive search over every primitive: neither is strictly nearer than
/// the other, and there is none exactly when that search finds none.
pub proof fn lemma_nearest_hit_matches_exhaustive_search<B, J: Fn(&B, &B) -> B, H>(
    bvh: Bvh<B>,
    bounds: Seq<B>,
    join: J,
    pred: spec_fn(B) -> bool,
    hits: spec_fn(usize) -> Option<H>,
    lt: spec_fn(H, H) -> bool,
)
    requires
        bvh.spec_root().items().to_multiset() == numbered(bounds).to_multiset(),
        bvh.spec_root().joined(join),
        encloses(join, pred),
        forall|i: int| 0 <= i < bounds.len() && #[trigger] hits(i as usize) is Some ==> pred(bounds[i]),
        strict_order(lt),
    ensures
        ({
            let found = nearest_of(bvh.spec_root().reached(pred), hits, lt);
            let searched = nearest_of(every_position(bounds.len()), hits, lt);
            &&& found is None <==> searched is None
            &&& found is Some ==> !lt(found->Some_0, searched->Some_0) && !lt(searched->Some_0, found->Some_0)
        }),
{
    let root = bvh.spec_root();
    let items = root.items();
    let acc = accepted(pred);
    let idx = |l: Leaf<B>| l.index;
    let n = bounds.len();
    let all = every_position(n);
    lemma_candidates_match_exhaustive_search(bvh, join, pred);
    let c = root.reached(pred);
    assert(c == items.filter(acc).map_values(idx));
    // Every candidate is a position of the list.
    assert forall|k: int| 0 <= k < c.len() implies #[trigger] c[k] < n by {
        let l = items.filter(acc)[k];
        assert(items.filter(acc).contains(l));
        items.lemma_filter_contains_rev(acc, l);
        assert(items.to_multiset().count(l) > 0);
        assert(numbered(bounds).to_multiset().count(l) > 0);
        assert(numbered(bounds).contains(l));
    }
    // Every position with a hit is a candidate.
    assert forall|i: int| 0 <= i < n && #[trigger] hits(i as usize) is Some implies exists|k: int|
        0 <= k < c.len() && c[k] == i as usize by {
        let l = Leaf { bound: bounds[i], index: i as usize };
        assert(numbered(bounds)[i] == l);
        assert(numbered(bounds).contains(l));
        assert(numbered(bounds).to_multiset().count(l) > 0);
        assert(items.to_multiset().count(l) > 0);
        assert(items.contains(l));
        let j = choose|j: int| 0 <= j < items.len() && items[j] == l;
        items.lemma_filter_contains(acc, j);
        assert(items.filter(acc).contains(l));
        let k = choose|k: int| 0 <= k < items.filter(acc).len() && items.filter(acc)[k] == l;
        assert(c[k] == i as usize);
    }
    lemma_nearest_of(c, hits, lt);
    lemma_nearest_of(all, hits, lt);
    let found = nearest_of(c, hits, lt);
    let searched = nearest_of(all, hits, lt);
    if searched is Some {
        let i = choose|i: int| 0 <= i < all.len() && #[trigger] hits(all[i]) == searched;
        assert(all[i] == i as usize);
        assert(hits(i as usize) is Some);
        let k = choose|k: int| 0 <= k < c.len() && c[k] == i as usize;
        assert(hits(c[k]) is Some);
        assert(found is Some);
        assert(!lt(hits(c[k])->Some_0, found->Some_0));
    }
    if found is Some {
        let k = choose|k: int| 0 <= k < c.len() && #[trigger] hits(c[k]) == found;
        let i = c[k] as int;
        assert(c[k] < n);
        assert(all[i] == c[k]);
        assert(hits(all[i]) is Some);
        assert(searched is Some);
        assert(!lt(hits(all[i])->Some_0, searched->Some_0));
    }
}

/// Every internal node divides its primitives into two non-empty parts: its
/// left subtree holds strictly between none and all of them.
pub open spec fn splits_valid<B>(t: Branch<B>) -> bool
    decreases t,
{
    match t {
        Branch::Leaf(_) => true,
        Branch::Node { left, right, .. } => {
            &&& 0 < left.items().len() < t.items().len()
            &&& splits_valid(*left)
            &&& splits_valid(*right)
        },
    }
}

/// Every subtree holds at least one leaf.
pub proof fn lemma_nonempty<B>(t: Branch<B>)
    ensures
        t.items().len() > 0,
    decreases t,
{
    if let Branch::Node { left, right, .. } = t {
        lemma_nonempty(*left);
        lemma_nonempty(*right);
    }
}

/// In every hierarchy, each internal node's split index lies strictly between
/// 0 and the number of primitives below it.
pub proof fn lemma_splits_valid<B>(t: Branch<B>)
    ensures
        splits_valid(t),
    decreases t,
{
    if let Branch::Node { left, right, .. } = t {
        lemma_nonempty(*left);
        lemma_nonempty(*right);
        lemma_splits_valid(*left);
        lemma_splits_valid(*right);
    }
}

} // verus!
