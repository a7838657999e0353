//! Correction-set formulas whose conjunctions keep a few atoms inline.
use smallvec::SmallVec;
use vstd::prelude::*;

use super::{
    and_fold, and_all, conjoin, distribute_all, join_all, lemma_distribute_nonempty, lemma_join_conjoins,
};

verus! {

/// How many atoms a conjunction keeps inline before spilling to the heap.
pub const MAX_CONJUNCTS: usize = 4;

/// The atoms of a conjunction, held in a `SmallVec` that keeps up to four
/// atoms inline.
#[verifier::external_body]
pub struct SmallAtoms {
    v: SmallVec<[u32; 4]>,
}

/// The atoms held by a `SmallAtoms`, in order.
pub uninterp spec fn small_items(a: SmallAtoms) -> Seq<u32>;

impl SmallAtoms {
    /// `SmallVec::new`: an empty vector.
    #[verifier::external_body]
    fn new() -> (r: SmallAtoms)
        ensures
            small_items(r) == Seq::<u32>::empty(),
    {
        SmallAtoms { v: SmallVec::new() }
    }

    /// `SmallVec::push`: appends one atom at the end.
    #[verifier::external_body]
    fn push(&mut self, x: u32)
        requires
            small_items(*old(self)).len() < usize::MAX,
        ensures
            small_items(*final(self)) == small_items(*old(self)).push(x),
    {
        self.v.push(x)
    }

    /// `SmallVec::clone`: a vector with the same atoms.
    #[verifier::external_body]
    fn duplicate(&self) -> (r: SmallAtoms)
        ensures
            small_items(r) == small_items(*self),
    {
        SmallAtoms { v: self.v.clone() }
    }

    /// `SmallVec::as_slice`: all atoms, in order.
    #[verifier::external_body]
    fn as_slice(&self) -> (r: &[u32])
        ensures
            r@ == small_items(*self),
    {
        self.v.as_slice()
    }
}

/// A conjunction of atoms.
pub struct And(SmallAtoms);

/// A disjunction of conjunctions.
pub struct Dnf(Vec<And>);

impl View for And {
    type V = Seq<u32>;

    closed spec fn view(&self) -> Seq<u32> {
        small_items(self.0)
    }
}

impl View for Dnf {
    type V = Seq<Seq<u32>>;

    closed spec fn view(&self) -> Seq<Seq<u32>> {
        self.0@.map_values(|a: And| a@)
    }
}

/// The formulas of a list of formulas.
pub open spec fn dnf_views(vs: Seq<Dnf>) -> Seq<Seq<Seq<u32>>> {
    vs.map_values(|d: Dnf| d@)
}

/// A single atom conjoined with a non-empty formula is distributed over its
/// conjuncts: the atom is prefixed to each of them, in order.
pub proof fn law_single_distributes(i: u32, d: Seq<Seq<u32>>)
    requires
        d.len() > 0,
    ensures
        and_fold(seq![seq![seq![i]], d]) == Some(conjoin(seq![i], d)),
{
    let vs = seq![seq![seq![i]], d];
    let a = seq![seq![i]];
    assert(vs.drop_last() =~= seq![a]);
    assert(seq![a].drop_last() =~= Seq::<Seq<Seq<u32>>>::empty());
    assert(and_fold(Seq::<Seq<Seq<u32>>>::empty()) is None);
    assert(seq![a].last() == a);
    assert(and_fold(seq![a]) == Some(a));
    assert(a.drop_last() =~= Seq::<Seq<u32>>::empty());
    assert(a.last() == seq![i]);
    assert(distribute_all(Seq::<Seq<u32>>::empty(), d) =~= Seq::<Seq<u32>>::empty());
    assert(distribute_all(a, d) == distribute_all(a.drop_last(), d) + conjoin(a.last(), d));
    assert(distribute_all(a, d) =~= conjoin(seq![i], d));
    assert(conjoin(seq![i], d).len() == d.len());
}

proof fn lemma_push_view(s: Seq<And>, a: And)
    ensures
        s.push(a).map_values(|x: And| x@) == s.map_values(|x: And| x@).push(a@),
{
    let l = s.push(a).map_values(|x: And| x@);
    let r = s.map_values(|x: And| x@).push(a@);
    assert forall|k: int| 0 <= k < l.len() implies l[k] == r[k] by {
        if k < s.len() {
            assert(s.push(a)[k] == s[k]);
        }
    }
    assert(l =~= r);
}

proof fn lemma_push_dnf_view(s: Seq<Dnf>, a: Dnf)
    ensures
        dnf_views(s.push(a)) == dnf_views(s).push(a@),
{
    let l = dnf_views(s.push(a));
    let r = dnf_views(s).push(a@);
    assert forall|k: int| 0 <= k < l.len() implies l[k] == r[k] by {
        if k < s.len() {
            assert(s.push(a)[k] == s[k]);
        }
    }
    assert(l =~= r);
}

/// Appends the atoms of `a` to `out`.
fn extend_atoms(out: &mut SmallAtoms, a: &[u32])
    requires
        small_items(*old(out)).len() + a@.len() < usize::MAX,
    ensures
        small_items(*final(out)) == small_items(*old(out)) + a@,
{
    let ghost start = small_items(*out);
    let mut i: usize = 0;
    while i < a.len()
        invariant
            i <= a@.len(),
            start.len() + a@.len() < usize::MAX,
            small_items(*out) == start + a@.subrange(0, i as int),
        decreases a@.len() - i,
    {
        out.push(a[i]);
        i = i + 1;
        assert(small_items(*out) =~= start + a@.subrange(0, i as int));
    }
    assert(a@.subrange(0, a@.len() as int) =~= a@);
}

impl Clone for And {
    fn clone(&self) -> (r: And)
        ensures
            r@ == self@,
    {
        And(self.0.duplicate())
    }
}

impl And {
    /// The atoms of the conjunction, in order.
    pub fn iter(&self) -> (r: &[u32])
        ensures
            r@ == self@,
    {
        self.0.as_slice()
    }

    /// Prefixes this conjunct to each conjunct of `rhs`.
    fn distribute(&self, rhs: &Dnf) -> (r: Dnf)
        requires
            forall|k: int|
                0 <= k < rhs@.len() ==> self@.len() + (#[trigger] rhs@[k]).len() < usize::MAX,
        ensures
            r@ == conjoin(self@, rhs@),
    {
        let mut out: Vec<And> = Vec::new();
        let mut i: usize = 0;
        while i < rhs.0.len()
            invariant
                i <= rhs.0@.len(),
                forall|k: int|
                    0 <= k < rhs@.len() ==> self@.len() + (#[trigger] rhs@[k]).len() < usize::MAX,
                out@.map_values(|a: And| a@) == conjoin(self@, rhs@).subrange(0, i as int),
            decreases rhs.0@.len() - i,
        {
            let mut atoms = SmallAtoms::new();
            assert(rhs@[i as int] == rhs.0@[i as int]@);
            extend_atoms(&mut atoms, self.0.as_slice());
            extend_atoms(&mut atoms, rhs.0[i].0.as_slice());
            let c = And(atoms);
            proof {
                assert(c@ =~= self@ + rhs@[i as int]);
                lemma_push_view(out@, c);
                assert(conjoin(self@, rhs@).subrange(0, i + 1) =~= conjoin(self@, rhs@).subrange(
                    0,
                    i as int,
                ).push(c@));
            }
            out.push(c);
            i = i + 1;
        }
        let r = Dnf(out);
        assert(r@ =~= conjoin(self@, rhs@));
        r
    }
}

/// The length of the longest conjunct of a formula.
pub open spec fn max_width(d: Seq<Seq<u32>>) -> nat
    decreases d.len(),
{
    if d.len() == 0 {
        0
    } else {
        let w = max_width(d.drop_last());
        if d.last().len() > w {
            d.last().len()
        } else {
            w
        }
    }
}

/// The sum of the longest conjunct lengths of a list of formulas: a bound on
/// the length of any conjunct that combining them can build.
pub open spec fn total_width(vs: Seq<Seq<Seq<u32>>>) -> nat
    decreases vs.len(),
{
    if vs.len() == 0 {
        0
    } else {
        total_width(vs.drop_last()) + max_width(vs.last())
    }
}

/// Every conjunct is at most `w` atoms long.
pub open spec fn widths_within(d: Seq<Seq<u32>>, w: int) -> bool {
    forall|c: int| 0 <= c < d.len() ==> (#[trigger] d[c]).len() <= w
}

proof fn lemma_max_width(d: Seq<Seq<u32>>)
    ensures
        widths_within(d, max_width(d) as int),
    decreases d.len(),
{
    if d.len() > 0 {
        lemma_max_width(d.drop_last());
        assert forall|c: int| 0 <= c < d.len() implies (#[trigger] d[c]).len() <= max_width(d) by {
            if c < d.len() - 1 {
                assert(d[c] == d.drop_last()[c]);
            }
        }
    }
}

proof fn lemma_total_width_monotone(vs: Seq<Seq<Seq<u32>>>, i: int)
    requires
        0 <= i <= vs.len(),
    ensures
        total_width(vs.subrange(0, i)) <= total_width(vs),
    decreases vs.len() - i,
{
    if i < vs.len() {
        lemma_total_width_monotone(vs, i + 1);
        assert(vs.subrange(0, i + 1).drop_last() =~= vs.subrange(0, i));
    } else {
        assert(vs.subrange(0, i) =~= vs);
    }
}

proof fn lemma_distribute_widths(l: Seq<Seq<u32>>, r: Seq<Seq<u32>>, x: int, y: int)
    requires
        widths_within(l, x),
        widths_within(r, y),
    ensures
        widths_within(distribute_all(l, r), x + y),
    decreases l.len(),
{
    if l.len() > 0 {
        lemma_distribute_widths(l.drop_last(), r, x, y);
        let a = distribute_all(l.drop_last(), r);
        let b = conjoin(l.last(), r);
        assert forall|c: int| 0 <= c < (a + b).len() implies (#[trigger] (a + b)[c]).len() <= x + y by {
            if c < a.len() {
                assert((a + b)[c] == a[c]);
            } else {
                assert((a + b)[c] == b[c - a.len()]);
                assert(b[c - a.len()] == l.last() + r[c - a.len()]);
            }
        }
    }
}

impl Dnf {
    /// The conjunctions, in order.
    pub fn iter_conjuncts(&self) -> (r: &[And])
        ensures
            r@.map_values(|a: And| a@) == self@,
    {
        self.0.as_slice()
    }

    /// A copy of the formula.
    fn duplicate(&self) -> (r: Dnf)
        ensures
            r@ == self@,
    {
        let mut out: Vec<And> = Vec::new();
        let mut i: usize = 0;
        while i < self.0.len()
            invariant
                i <= self.0@.len(),
                out@.map_values(|a: And| a@) == self@.subrange(0, i as int),
            decreases self.0@.len() - i,
        {
            let c = self.0[i].clone();
            proof {
                lemma_push_view(out@, c);
                assert(self@.subrange(0, i + 1) =~= self@.subrange(0, i as int).push(c@));
            }
            out.push(c);
            i = i + 1;
        }
        assert(self@.subrange(0, self@.len() as int) =~= self@);
        Dnf(out)
    }

    /// The disjunction of `vs`; `None` when no conjunct is left.
    pub fn or(vs: Vec<Dnf>) -> (r: Option<Dnf>)
        ensures
            match r {
                Some(d) => d@ == join_all(dnf_views(vs@)) && d@.len() > 0,
                None => join_all(dnf_views(vs@)).len() == 0,
            },
    {
        let ghost views = dnf_views(vs@);
        let mut out: Vec<And> = Vec::new();
        let n = vs.len();
        let mut k: usize = 0;
        while k < n
            invariant
                n == vs@.len(),
                n == views.len(),
                views == dnf_views(vs@),
                k <= n,
                out@.map_values(|a: And| a@) == join_all(views.subrange(0, k as int)),
            decreases n - k,
        {
            let d = &vs[k];
            let ghost before = out@.map_values(|a: And| a@);
            let m = d.0.len();
            let mut j: usize = 0;
            while j < m
                invariant
                    m == d.0@.len(),
                    j <= m,
                    out@.map_values(|a: And| a@) == before + d@.subrange(0, j as int),
                decreases m - j,
            {
                let c = d.0[j].clone();
                proof {
                    lemma_push_view(out@, c);
                    assert(before + d@.subrange(0, j + 1) =~= (before + d@.subrange(0, j as int)).push(c@));
                }
                out.push(c);
                j = j + 1;
            }
            proof {
                assert(d@.subrange(0, j as int) =~= d@);
                assert(views.subrange(0, k + 1).drop_last() =~= views.subrange(0, k as int));
            }
            k = k + 1;
        }
        assert(views.subrange(0, n as int) =~= views);
        if out.len() == 0 {
            None
        } else {
            Some(Dnf(out))
        }
    }

    /// The conjunction of two formulas; `None` when it has no conjunct.
    fn distribute(self, other: Self) -> (r: Option<Self>)
        requires
            forall|a: int, b: int|
                0 <= a < self@.len() && 0 <= b < other@.len() ==> (#[trigger] self@[a]).len() + (
                #[trigger] other@[b]).len() < usize::MAX,
        ensures
            match r {
                Some(d) => d@ == distribute_all(self@, other@) && d@.len() > 0,
                None => distribute_all(self@, other@).len() == 0,
            },
    {
        let mut parts: Vec<Dnf> = Vec::new();
        let mut i: usize = 0;
        while i < self.0.len()
            invariant
                i <= self.0@.len(),
                forall|a: int, b: int|
                    0 <= a < self@.len() && 0 <= b < other@.len() ==> (#[trigger] self@[a]).len()
                        + (#[trigger] other@[b]).len() < usize::MAX,
                dnf_views(parts@) == self@.subrange(0, i as int).map_values(
                    |l: Seq<u32>| conjoin(l, other@),
                ),
            decreases self.0@.len() - i,
        {
            assert(self@[i as int] == self.0@[i as int]@);
            assert forall|b: int| 0 <= b < other@.len() implies self.0@[i as int]@.len() + (
            #[trigger] other@[b]).len() < usize::MAX by {
                assert(self@[i as int].len() + other@[b].len() < usize::MAX);
            }
            let d = self.0[i].distribute(&other);
            proof {
                lemma_push_dnf_view(parts@, d);
                assert(self@.subrange(0, i + 1).map_values(|l: Seq<u32>| conjoin(l, other@))
                    =~= self@.subrange(0, i as int).map_values(|l: Seq<u32>| conjoin(l, other@)).push(
                    d@,
                ));
            }
            parts.push(d);
            i = i + 1;
        }
        assert(self@.subrange(0, self@.len() as int) =~= self@);
        proof {
            lemma_join_conjoins(self@, other@);
        }
        Self::or(parts)
    }

    /// The conjunction of `vs`: see `and_fold`. The conjunctions that it
    /// builds must fit the atom count of a vector.
    pub fn and(vs: Vec<Dnf>) -> (r: Option<Dnf>)
        requires
            total_width(dnf_views(vs@)) < usize::MAX,
        ensures
            match r {
                Some(d) => and_fold(dnf_views(vs@)) == Some(d@),
                None => and_fold(dnf_views(vs@)) is None,
            },
    {
        let ghost views = dnf_views(vs@);
        let n = vs.len();
        let mut acc: Option<Dnf> = None;
        let mut i: usize = 0;
        while i < n
            invariant
                n == vs@.len(),
                n == views.len(),
                views == dnf_views(vs@),
                i <= n,
                total_width(views) < usize::MAX,
                match acc {
                    Some(d) => and_fold(views.subrange(0, i as int)) == Some(d@) && widths_within(
                        d@,
                        total_width(views.subrange(0, i as int)) as int,
                    ),
                    None => and_fold(views.subrange(0, i as int)) is None,
                },
            decreases n - i,
        {
            let d = vs[i].duplicate();
            let ghost pre = views.subrange(0, i as int);
            let ghost next = views.subrange(0, i + 1);
            proof {
                assert(views[i as int] == d@);
                assert(next.drop_last() =~= pre);
                assert(next.last() == d@);
                lemma_max_width(d@);
                lemma_total_width_monotone(views, i + 1);
            }
            acc = match acc {
                None => Some(d),
                Some(lhs) => {
                    proof {
                        lemma_distribute_widths(
                            lhs@,
                            d@,
                            total_width(pre) as int,
                            max_width(d@) as int,
                        );
                    }
                    lhs.distribute(d)
                },
            };
            i = i + 1;
        }
        assert(views.subrange(0, n as int) =~= views);
        acc
    }

    /// The formula with the single atom `i`.
    pub fn single(i: u32) -> (r: Dnf)
        ensures
            r@ == seq![seq![i]],
    {
        let mut atoms = SmallAtoms::new();
        atoms.push(i);
        let mut c: Vec<And> = Vec::new();
        c.push(And(atoms));
        let r = Dnf(c);
        assert(r@ =~= seq![seq![i]]);
        r
    }

    /// The formula with no conjunct, which never holds.
    pub fn default() -> (r: Dnf)
        ensures
            r@ == Seq::<Seq<u32>>::empty(),
    {
        let r = Dnf(Vec::new());
        assert(r@ =~= Seq::<Seq<u32>>::empty());
        r
    }
}

} // verus!
