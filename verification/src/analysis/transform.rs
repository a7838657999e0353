//! Turning the obligations of a body into categorized trait errors.
use vstd::prelude::*;

use super::hir::{BinKind, HirId};
use crate::types::{
    keeps_full_data, needs_full_data, CharRange, Expr, ExprIdx, ExprKind, Obligation,
    ObligationHash, ObligationIdx, Provenance, TraitError,
};

verus! {

/// The expression kind of a bin of obligations.
pub open spec fn bin_expr_kind(kind: BinKind) -> ExprKind {
    match kind {
        BinKind::Misc => ExprKind::Misc,
        BinKind::CallableExpr => ExprKind::CallableExpr,
        BinKind::CallArg => ExprKind::CallArg,
        BinKind::Call => ExprKind::Call,
    }
}

pub fn expr_kind_of(kind: BinKind) -> (r: ExprKind)
    ensures
        r == bin_expr_kind(kind),
{
    match kind {
        BinKind::Misc => ExprKind::Misc,
        BinKind::CallableExpr => ExprKind::CallableExpr,
        BinKind::CallArg => ExprKind::CallArg,
        BinKind::Call => ExprKind::Call,
    }
}

/// The index of the first obligation whose hash is `needle`.
pub fn exact_predicate_search(raw_obligations: &Vec<Obligation>, needle: ObligationHash) -> (r:
    Option<ObligationIdx>)
    ensures
        r is None <==> forall|j: int|
            0 <= j < raw_obligations@.len() ==> (#[trigger] raw_obligations@[j]).hash != needle,
        r matches Some(i) ==> i.0 < raw_obligations@.len() && raw_obligations@[i.0 as int].hash
            == needle && forall|j: int| 0 <= j < i.0 ==> (#[trigger] raw_obligations@[j]).hash != needle,
        r == first_with_hash(raw_obligations@, needle),
{
    let mut i: usize = 0;
    while i < raw_obligations.len()
        invariant
            i <= raw_obligations@.len(),
            forall|j: int| 0 <= j < i ==> (#[trigger] raw_obligations@[j]).hash != needle,
        decreases raw_obligations@.len() - i,
    {
        if raw_obligations[i].hash == needle {
            proof {
                lemma_first_with_hash(raw_obligations@, needle);
            }
            return Some(ObligationIdx(i));
        }
        i = i + 1;
    }
    proof {
        lemma_first_with_hash(raw_obligations@, needle);
    }
    None
}

/// The index of the first obligation of `raw` whose hash is `h`.
pub open spec fn first_with_hash(raw: Seq<Obligation>, h: ObligationHash) -> Option<ObligationIdx>
    decreases raw.len(),
{
    if raw.len() == 0 {
        None
    } else {
        match first_with_hash(raw.drop_last(), h) {
            Some(i) => Some(i),
            None => if raw.last().hash == h {
                Some(ObligationIdx((raw.len() - 1) as usize))
            } else {
                None
            },
        }
    }
}

proof fn lemma_first_with_hash(raw: Seq<Obligation>, h: ObligationHash)
    requires
        raw.len() <= usize::MAX,
    ensures
        first_with_hash(raw, h) is None <==> forall|j: int|
            0 <= j < raw.len() ==> (#[trigger] raw[j]).hash != h,
        first_with_hash(raw, h) matches Some(i) ==> i.0 < raw.len() && raw[i.0 as int].hash == h
            && forall|j: int| 0 <= j < i.0 ==> (#[trigger] raw[j]).hash != h,
    decreases raw.len(),
{
    if raw.len() > 0 {
        lemma_first_with_hash(raw.drop_last(), h);
        assert forall|j: int| 0 <= j < raw.len() - 1 implies raw.drop_last()[j] == raw[j] by {}
        if let Some(i) = first_with_hash(raw.drop_last(), h) {
            assert(raw.drop_last()[i.0 as int] == raw[i.0 as int]);
        }
    }
}

/// The obligations that a reported error names: for each reported hash in
/// order, the first obligation of the body with that hash, else the one
/// that the branchless search of proof trees gave for it (`shallow`, one
/// answer per hash), paired with the hash. Hashes found neither way are
/// dropped.
pub open spec fn matched_predicates(
    raw: Seq<Obligation>,
    predicates: Seq<ObligationHash>,
    shallow: Seq<Option<ObligationIdx>>,
) -> Seq<(ObligationIdx, ObligationHash)>
    decreases predicates.len(),
{
    if predicates.len() == 0 {
        Seq::empty()
    } else {
        let n = predicates.len() - 1;
        let rest = matched_predicates(raw, predicates.drop_last(), shallow.take(n));
        let p = predicates.last();
        match first_with_hash(raw, p) {
            Some(i) => rest.push((i, p)),
            None => match shallow[n] {
                Some(i) => rest.push((i, p)),
                None => rest,
            },
        }
    }
}

/// Finds the obligations that a reported error names; `shallow` holds,
/// for each reported hash, what the branchless search of the proof trees
/// found for it.
pub fn match_reported_predicates(
    raw_obligations: &Vec<Obligation>,
    predicates: &Vec<ObligationHash>,
    shallow: &Vec<Option<ObligationIdx>>,
) -> (r: Vec<(ObligationIdx, ObligationHash)>)
    requires
        shallow@.len() == predicates@.len(),
    ensures
        r@ == matched_predicates(raw_obligations@, predicates@, shallow@),
{
    let mut r: Vec<(ObligationIdx, ObligationHash)> = Vec::new();
    let mut k: usize = 0;
    while k < predicates.len()
        invariant
            k <= predicates@.len(),
            shallow@.len() == predicates@.len(),
            r@ == matched_predicates(
                raw_obligations@,
                predicates@.take(k as int),
                shallow@.take(k as int),
            ),
        decreases predicates@.len() - k,
    {
        let p = predicates[k];
        proof {
            let pk = predicates@.take(k + 1);
            let sk = shallow@.take(k + 1);
            assert(pk.drop_last() =~= predicates@.take(k as int));
            assert(sk.take(k as int) =~= shallow@.take(k as int));
            assert(pk.last() == p);
            assert(sk[k as int] == shallow@[k as int]);
        }
        match exact_predicate_search(raw_obligations, p) {
            Some(i) => r.push((i, p)),
            None => match shallow[k] {
                Some(i) => r.push((i, p)),
                None => {},
            },
        }
        k = k + 1;
    }
    assert(predicates@.take(predicates@.len() as int) =~= predicates@);
    assert(shallow@.take(shallow@.len() as int) =~= shallow@);
    r
}

/// Attaches a reported error to the first expression that holds one of the
/// obligations it names, and gives the hashes that were found. `None` when
/// no expression holds any of them.
pub fn relate_trait_bound(
    exprs: &Vec<Expr>,
    raw_obligations: &Vec<Obligation>,
    predicates: &Vec<ObligationHash>,
    shallow: &Vec<Option<ObligationIdx>>,
) -> (r: Option<(ExprIdx, Vec<ObligationHash>)>)
    requires
        shallow@.len() == predicates@.len(),
    ensures
        ({
            let m = matched_predicates(raw_obligations@, predicates@, shallow@);
            let idxs = m.map_values(|x: (ObligationIdx, ObligationHash)| x.0);
            &&& r is None <==> forall|e: int|
                0 <= e < exprs@.len() ==> !holds_any(#[trigger] exprs@[e], idxs)
            &&& r matches Some((e, hashes)) ==> {
                &&& e.0 < exprs@.len()
                &&& holds_any(exprs@[e.0 as int], idxs)
                &&& forall|j: int| 0 <= j < e.0 ==> !holds_any(#[trigger] exprs@[j], idxs)
                &&& hashes@ == m.map_values(|x: (ObligationIdx, ObligationHash)| x.1)
            }
        }),
{
    let matched = match_reported_predicates(raw_obligations, predicates, shallow);
    let mut idxs: Vec<ObligationIdx> = Vec::new();
    let mut hashes: Vec<ObligationHash> = Vec::new();
    let mut k: usize = 0;
    while k < matched.len()
        invariant
            k <= matched@.len(),
            idxs@ == matched@.take(k as int).map_values(|x: (ObligationIdx, ObligationHash)| x.0),
            hashes@ == matched@.take(k as int).map_values(|x: (ObligationIdx, ObligationHash)| x.1),
        decreases matched@.len() - k,
    {
        let (i, h) = matched[k];
        idxs.push(i);
        hashes.push(h);
        assert(matched@.take(k + 1) =~= matched@.take(k as int).push(matched@[k as int]));
        assert(idxs@ =~= matched@.take(k + 1).map_values(|x: (ObligationIdx, ObligationHash)| x.0));
        assert(hashes@ =~= matched@.take(k + 1).map_values(|x: (ObligationIdx, ObligationHash)| x.1));
        k = k + 1;
    }
    assert(matched@.take(matched@.len() as int) =~= matched@);
    match find_root_expr(exprs, &idxs) {
        Some(e) => Some((e, hashes)),
        None => None,
    }
}

/// Expression `e` holds one of the obligations `preds`.
pub open spec fn holds_any(e: Expr, preds: Seq<ObligationIdx>) -> bool {
    exists|p: int| 0 <= p < preds.len() && e.obligations@.contains(#[trigger] preds[p])
}

fn contains_idx(v: &Vec<ObligationIdx>, x: ObligationIdx) -> (r: bool)
    ensures
        r == v@.contains(x),
{
    let mut i: usize = 0;
    while i < v.len()
        invariant
            i <= v@.len(),
            forall|j: int| 0 <= j < i ==> v@[j] != x,
        decreases v@.len() - i,
    {
        if v[i] == x {
            return true;
        }
        i = i + 1;
    }
    false
}

/// The first expression that holds one of the obligations `preds`: reported
/// errors are attached to it, first come first served.
pub fn find_root_expr(exprs: &Vec<Expr>, preds: &Vec<ObligationIdx>) -> (r: Option<ExprIdx>)
    ensures
        r is None <==> forall|e: int| 0 <= e < exprs@.len() ==> !holds_any(#[trigger] exprs@[e], preds@),
        r matches Some(e) ==> e.0 < exprs@.len() && holds_any(exprs@[e.0 as int], preds@) && forall|
            j: int,
        | 0 <= j < e.0 ==> !holds_any(#[trigger] exprs@[j], preds@),
{
    let mut e: usize = 0;
    while e < exprs.len()
        invariant
            e <= exprs@.len(),
            forall|j: int| 0 <= j < e ==> !holds_any(#[trigger] exprs@[j], preds@),
        decreases exprs@.len() - e,
    {
        let mut p: usize = 0;
        while p < preds.len()
            invariant
                e < exprs@.len(),
                p <= preds@.len(),
                forall|j: int| 0 <= j < e ==> !holds_any(#[trigger] exprs@[j], preds@),
                forall|q: int| 0 <= q < p ==> !exprs@[e as int].obligations@.contains(#[trigger] preds@[q]),
            decreases preds@.len() - p,
        {
            if contains_idx(&exprs[e].obligations, preds[p]) {
                assert(exprs@[e as int].obligations@.contains(preds@[p as int]));
                assert(holds_any(exprs@[e as int], preds@));
                return Some(ExprIdx(e));
            }
            p = p + 1;
        }
        e = e + 1;
    }
    None
}

/// The hashes of the failed obligations among `idxs`, in order.
pub open spec fn failed_hashes(idxs: Seq<ObligationIdx>, raw: Seq<Obligation>) -> Seq<ObligationHash>
    decreases idxs.len(),
{
    if idxs.len() == 0 {
        Seq::empty()
    } else {
        failed_hashes(idxs.drop_last(), raw) + if raw[idxs.last().0 as int].result is Err {
            seq![raw[idxs.last().0 as int].hash]
        } else {
            Seq::empty()
        }
    }
}

/// `h` is the hash of one of the obligations `idxs` whose result is an
/// error.
pub open spec fn hash_of_failed(idxs: Seq<ObligationIdx>, raw: Seq<Obligation>, h: ObligationHash) -> bool {
    exists|k: int|
        0 <= k < idxs.len() && raw[(#[trigger] idxs[k]).0 as int].result is Err && raw[idxs[k].0 as int].hash
            == h
}

/// The hashes attached to an unreported error are those of the failed
/// obligations of its expression: each one is the hash of an obligation
/// whose result is an error, every failed obligation gives its hash, and
/// obligations that hold or are undecided give none.
pub proof fn law_failed_hashes(idxs: Seq<ObligationIdx>, raw: Seq<Obligation>)
    requires
        forall|k: int| 0 <= k < idxs.len() ==> (#[trigger] idxs[k]).0 < raw.len(),
    ensures
        forall|m: int|
            0 <= m < failed_hashes(idxs, raw).len() ==> hash_of_failed(
                idxs,
                raw,
                #[trigger] failed_hashes(idxs, raw)[m],
            ),
        forall|k: int|
            0 <= k < idxs.len() && raw[(#[trigger] idxs[k]).0 as int].result is Err ==> failed_hashes(
                idxs,
                raw,
            ).contains(raw[idxs[k].0 as int].hash),
        failed_hashes(idxs, raw).len() <= idxs.len(),
    decreases idxs.len(),
{
    if idxs.len() > 0 {
        let init = idxs.drop_last();
        assert forall|k: int| 0 <= k < init.len() implies (#[trigger] init[k]).0 < raw.len() by {
            assert(init[k] == idxs[k]);
        }
        law_failed_hashes(init, raw);
        let r0 = failed_hashes(init, raw);
        let r = failed_hashes(idxs, raw);
        let n = idxs.len() - 1;
        assert forall|m: int| 0 <= m < r0.len() implies r[m] == r0[m] by {}
        assert forall|m: int| 0 <= m < r.len() implies hash_of_failed(idxs, raw, #[trigger] r[m]) by {
            if m < r0.len() {
                assert(hash_of_failed(init, raw, r0[m]));
                let k = choose|k: int|
                    0 <= k < init.len() && raw[(#[trigger] init[k]).0 as int].result is Err
                        && raw[init[k].0 as int].hash == r0[m];
                assert(idxs[k] == init[k]);
            } else {
                assert(raw[idxs[n].0 as int].result is Err);
                assert(r[m] == raw[idxs[n].0 as int].hash);
            }
        }
        assert forall|k: int|
            0 <= k < idxs.len() && raw[(#[trigger] idxs[k]).0 as int].result is Err implies r.contains(
            raw[idxs[k].0 as int].hash,
        ) by {
            if k < n {
                assert(idxs[k] == init[k]);
                let m = r0.index_of(raw[init[k].0 as int].hash);
                assert(r[m] == r0[m]);
            } else {
                assert(r[r.len() - 1] == raw[idxs[n].0 as int].hash);
            }
        }
    }
}

/// The hashes of the failed obligations of an expression with an error
/// that rustc did not report.
pub fn unreported_error_hashes(expr: &Expr, raw_obligations: &Vec<Obligation>) -> (r: Vec<ObligationHash>)
    requires
        forall|k: int|
            0 <= k < expr.obligations@.len() ==> (#[trigger] expr.obligations@[k]).0
                < raw_obligations@.len(),
    ensures
        r@ == failed_hashes(expr.obligations@, raw_obligations@),
{
    let mut r: Vec<ObligationHash> = Vec::new();
    let mut i: usize = 0;
    while i < expr.obligations.len()
        invariant
            i <= expr.obligations@.len(),
            forall|k: int|
                0 <= k < expr.obligations@.len() ==> (#[trigger] expr.obligations@[k]).0
                    < raw_obligations@.len(),
            r@ == failed_hashes(expr.obligations@.subrange(0, i as int), raw_obligations@),
        decreases expr.obligations@.len() - i,
    {
        let idx = expr.obligations[i];
        let obligation = &raw_obligations[idx.0];
        let ghost sub = expr.obligations@.subrange(0, i + 1);
        assert(sub.drop_last() =~= expr.obligations@.subrange(0, i as int));
        assert(sub.last() == idx);
        match obligation.result {
            Ok(..) => {
                assert(r@ =~= failed_hashes(sub, raw_obligations@));
            },
            Err(..) => {
                r.push(obligation.hash);
                assert(r@ =~= failed_hashes(sub, raw_obligations@));
            },
        }
        i = i + 1;
    }
    assert(expr.obligations@.subrange(0, expr.obligations@.len() as int) =~= expr.obligations@);
    r
}

/// Every obligation that keeps its full data has that data stored: the
/// index of the first one that does not, otherwise `Ok`.
pub fn is_valid(raw_obligations: &Vec<Obligation>, full_data: &Vec<ObligationHash>) -> (r: Result<(), ObligationIdx>)
    ensures
        r is Ok <==> forall|i: int|
            0 <= i < raw_obligations@.len() && keeps_full_data(
                (#[trigger] raw_obligations@[i]).necessity,
                raw_obligations@[i].result,
            ) ==> full_data@.contains(raw_obligations@[i].hash),
        r matches Err(i) ==> i.0 < raw_obligations@.len() && keeps_full_data(
            raw_obligations@[i.0 as int].necessity,
            raw_obligations@[i.0 as int].result,
        ) && !full_data@.contains(raw_obligations@[i.0 as int].hash),
{
    let mut i: usize = 0;
    while i < raw_obligations.len()
        invariant
            i <= raw_obligations@.len(),
            forall|k: int|
                0 <= k < i && keeps_full_data(
                    (#[trigger] raw_obligations@[k]).necessity,
                    raw_obligations@[k].result,
                ) ==> full_data@.contains(raw_obligations@[k].hash),
        decreases raw_obligations@.len() - i,
    {
        let obl = &raw_obligations[i];
        if needs_full_data(obl.necessity, &obl.result) {
            let mut exists = false;
            let mut j: usize = 0;
            while j < full_data.len()
                invariant
                    j <= full_data@.len(),
                    exists == (exists|k: int| 0 <= k < j && full_data@[k] == obl.hash),
                decreases full_data@.len() - j,
            {
                if full_data[j] == obl.hash {
                    exists = true;
                }
                j = j + 1;
            }
            if !exists {
                return Err(ObligationIdx(i));
            }
        }
        i = i + 1;
    }
    Ok(())
}

/// What a branchless search does after looking at a goal.
#[derive(Clone, Copy, Debug, PartialEq, Eq, Structural)]
pub enum SearchStep {
    /// Stop searching.
    Stop,
    /// Go on into the nested goals of the goal's only candidate.
    Descend,
}

/// Searches for an obligation along the non-branching start of a proof
/// tree: goals are followed while they have exactly one candidate.
pub struct BranchlessSearch {
    needle: ObligationHash,
    found: bool,
}

impl BranchlessSearch {
    /// The hash searched for.
    pub closed spec fn target(&self) -> ObligationHash {
        self.needle
    }

    /// Whether the hash was met.
    pub closed spec fn met(&self) -> bool {
        self.found
    }

    pub fn new(needle: ObligationHash) -> (r: BranchlessSearch)
        ensures
            r.target() == needle,
            !r.met(),
    {
        BranchlessSearch { needle, found: false }
    }

    pub fn was_found(self) -> (r: bool)
        ensures
            r == self.met(),
    {
        self.found
    }

    /// Looks at a goal with the given hash and number of candidates: the
    /// search is done when the goal is the one searched for, goes on into a
    /// lone candidate, and stops at a branch.
    pub fn visit_goal(&mut self, goal_hash: ObligationHash, num_candidates: usize) -> (r: SearchStep)
        ensures
            final(self).target() == old(self).target(),
            final(self).met() == (old(self).met() || goal_hash == old(self).target()),
            r == (if goal_hash == old(self).target() || num_candidates != 1 {
                SearchStep::Stop
            } else {
                SearchStep::Descend
            }),
    {
        if self.needle == goal_hash {
            self.found = true;
            return SearchStep::Stop;
        }
        if num_candidates == 1 {
            SearchStep::Descend
        } else {
            SearchStep::Stop
        }
    }
}

/// The obligations at the first `n` places of a bin, by obligation index:
/// with `with_data`, those with full data that the filters keep (`kept`);
/// otherwise those without full data.
pub open spec fn bin_part(
    bin: Seq<usize>,
    provenance: Seq<Provenance<ObligationIdx>>,
    kept: Seq<bool>,
    with_data: bool,
    n: nat,
) -> Seq<ObligationIdx>
    decreases n,
{
    if n == 0 {
        Seq::empty()
    } else {
        let k = n - 1;
        let p = provenance[bin[k] as int];
        let take = if with_data {
            p.full_data is Some && kept[k]
        } else {
            p.full_data is None
        };
        bin_part(bin, provenance, kept, with_data, (n - 1) as nat) + if take {
            seq![p.it]
        } else {
            Seq::empty()
        }
    }
}

fn collect_bin_part(
    bin: &Vec<usize>,
    provenance: &Vec<Provenance<ObligationIdx>>,
    kept: &Vec<bool>,
    with_data: bool,
    out: &mut Vec<ObligationIdx>,
)
    requires
        kept@.len() == bin@.len(),
        forall|k: int| 0 <= k < bin@.len() ==> #[trigger] bin@[k] < provenance@.len(),
    ensures
        final(out)@ == old(out)@ + bin_part(bin@, provenance@, kept@, with_data, bin@.len()),
{
    let ghost start = out@;
    let mut k: usize = 0;
    while k < bin.len()
        invariant
            kept@.len() == bin@.len(),
            forall|j: int| 0 <= j < bin@.len() ==> #[trigger] bin@[j] < provenance@.len(),
            k <= bin@.len(),
            out@ == start + bin_part(bin@, provenance@, kept@, with_data, k as nat),
        decreases bin@.len() - k,
    {
        let i = bin[k];
        assert(bin@[k as int] < provenance@.len());
        let p = &provenance[i];
        let take = if with_data {
            p.full_data.is_some() && kept[k]
        } else {
            p.full_data.is_none()
        };
        if take {
            out.push(p.it);
        }
        proof {
            let prev = bin_part(bin@, provenance@, kept@, with_data, k as nat);
            if take {
                assert(start + prev.push(p.it) =~= (start + prev).push(p.it));
            } else {
                assert(prev + Seq::<ObligationIdx>::empty() =~= prev);
            }
        }
        k = k + 1;
    }
}

/// The obligations of a bin as they go into its expression: those with
/// full data that the error-source and method-call filters keep (`kept`,
/// one flag per place of the bin), then those without full data; each by
/// its obligation index.
pub fn bin_obligations(
    bin: &Vec<usize>,
    provenance: &Vec<Provenance<ObligationIdx>>,
    kept: &Vec<bool>,
) -> (r: Vec<ObligationIdx>)
    requires
        kept@.len() == bin@.len(),
        forall|k: int| 0 <= k < bin@.len() ==> #[trigger] bin@[k] < provenance@.len(),
    ensures
        r@ == bin_part(bin@, provenance@, kept@, true, bin@.len()) + bin_part(
            bin@,
            provenance@,
            kept@,
            false,
            bin@.len(),
        ),
{
    let mut r: Vec<ObligationIdx> = Vec::new();
    collect_bin_part(bin, provenance, kept, true, &mut r);
    assert(Seq::<ObligationIdx>::empty() + bin_part(bin@, provenance@, kept@, true, bin@.len())
        =~= bin_part(bin@, provenance@, kept@, true, bin@.len()));
    collect_bin_part(bin, provenance, kept, false, &mut r);
    r
}

/// Candidate `k` lies inside every candidate: `encloses[j][k]` says
/// whether the node of candidate `j` is a parent of that of candidate `k`.
pub open spec fn innermost(encloses: Seq<Vec<bool>>, k: int) -> bool {
    forall|j: int| 0 <= j < encloses.len() ==> #[trigger] encloses[j]@[k]
}

fn is_innermost(encloses: &Vec<Vec<bool>>, k: usize) -> (r: bool)
    requires
        forall|a: int| 0 <= a < encloses@.len() ==> k < (#[trigger] encloses@[a])@.len(),
    ensures
        r == innermost(encloses@, k as int),
{
    let mut j: usize = 0;
    while j < encloses.len()
        invariant
            forall|a: int| 0 <= a < encloses@.len() ==> k < (#[trigger] encloses@[a])@.len(),
            j <= encloses@.len(),
            forall|a: int| 0 <= a < j ==> #[trigger] encloses@[a]@[k as int],
        decreases encloses@.len() - j,
    {
        if !encloses[j][k] {
            return false;
        }
        j = j + 1;
    }
    true
}

/// When no expression holds an obligation that a reported error names, the
/// error goes to the innermost of the expressions whose nodes contain the
/// error's node (`candidates`): the first one inside all the others.
pub fn child_most_expr(candidates: &Vec<ExprIdx>, encloses: &Vec<Vec<bool>>) -> (r: Option<ExprIdx>)
    requires
        encloses@.len() == candidates@.len(),
        forall|a: int| 0 <= a < encloses@.len() ==> (#[trigger] encloses@[a])@.len() == candidates@.len(),
    ensures
        r is None <==> forall|k: int| 0 <= k < candidates@.len() ==> !#[trigger] innermost(encloses@, k),
        r matches Some(e) ==> exists|k: int|
            0 <= k < candidates@.len() && candidates@[k] == e && #[trigger] innermost(encloses@, k)
                && forall|j: int| 0 <= j < k ==> !#[trigger] innermost(encloses@, j),
{
    let mut k: usize = 0;
    while k < candidates.len()
        invariant
            encloses@.len() == candidates@.len(),
            forall|a: int| 0 <= a < encloses@.len() ==> (#[trigger] encloses@[a])@.len() == candidates@.len(),
            k <= candidates@.len(),
            forall|j: int| 0 <= j < k ==> !#[trigger] innermost(encloses@, j),
        decreases candidates@.len() - k,
    {
        if is_innermost(encloses, k) {
            return Some(candidates[k]);
        }
        k = k + 1;
    }
    None
}

/// What sorting reads of a bin: its node and kind, its obligations (by
/// place in the body's list of obligations with provenance), which of them
/// the error-source and method-call filters keep, and the range and text of
/// its node's span when that span converts to a range.
#[derive(Clone, Debug)]
pub struct BinFacts {
    pub hir_id: HirId,
    pub kind: BinKind,
    pub obligations: Vec<usize>,
    pub kept: Vec<bool>,
    pub range: Option<CharRange>,
    pub snippet: String,
}

/// The bin's flags match its obligations, which are places below `n`.
pub open spec fn bin_ok(b: BinFacts, n: nat) -> bool {
    &&& b.kept@.len() == b.obligations@.len()
    &&& forall|k: int| 0 <= k < b.obligations@.len() ==> #[trigger] b.obligations@[k] < n
}

/// The bins that have a range, in order.
pub open spec fn ranged_bins(bins: Seq<BinFacts>) -> Seq<BinFacts>
    decreases bins.len(),
{
    if bins.len() == 0 {
        Seq::empty()
    } else {
        ranged_bins(bins.drop_last()) + if bins.last().range is Some {
            seq![bins.last()]
        } else {
            Seq::empty()
        }
    }
}

/// Expression `e` is the one made from bin `b`: the bin's range and text,
/// the expression kind of the bin, whether the bin's node owns the body, and
/// the bin's obligations with full data that the filters keep, then those
/// without full data.
pub open spec fn expr_of_bin(
    e: Expr,
    b: BinFacts,
    provenance: Seq<Provenance<ObligationIdx>>,
    body_owner: HirId,
) -> bool {
    &&& b.range == Some(e.range)
    &&& e.snippet@ == b.snippet@
    &&& e.kind == bin_expr_kind(b.kind)
    &&& e.is_body == (b.hir_id == body_owner)
    &&& e.obligations@ == bin_part(b.obligations@, provenance, b.kept@, true, b.obligations@.len())
        + bin_part(b.obligations@, provenance, b.kept@, false, b.obligations@.len())
}

/// The expressions of a body, one for each bin whose span has a range, in
/// the order of the bins, and for each the node it belongs to.
#[verifier::spinoff_prover]
pub fn sort_bins(
    bins: &Vec<BinFacts>,
    provenance: &Vec<Provenance<ObligationIdx>>,
    body_owner: HirId,
) -> (r: (Vec<Expr>, Vec<HirId>))
    requires
        forall|k: int| 0 <= k < bins@.len() ==> bin_ok(#[trigger] bins@[k], provenance@.len()),
    ensures
        r.0@.len() == ranged_bins(bins@).len(),
        r.1@.len() == ranged_bins(bins@).len(),
        forall|i: int|
            0 <= i < r.0@.len() ==> expr_of_bin(
                #[trigger] r.0@[i],
                ranged_bins(bins@)[i],
                provenance@,
                body_owner,
            ) && r.1@[i] == ranged_bins(bins@)[i].hir_id,
{
    let mut exprs: Vec<Expr> = Vec::new();
    let mut nodes: Vec<HirId> = Vec::new();
    let mut k: usize = 0;
    while k < bins.len()
        invariant
            forall|j: int| 0 <= j < bins@.len() ==> bin_ok(#[trigger] bins@[j], provenance@.len()),
            k <= bins@.len(),
            exprs@.len() == ranged_bins(bins@.take(k as int)).len(),
            nodes@.len() == exprs@.len(),
            forall|i: int|
                0 <= i < exprs@.len() ==> expr_of_bin(
                    #[trigger] exprs@[i],
                    ranged_bins(bins@.take(k as int))[i],
                    provenance@,
                    body_owner,
                ) && nodes@[i] == ranged_bins(bins@.take(k as int))[i].hir_id,
        decreases bins@.len() - k,
    {
        let b = &bins[k];
        assert(bin_ok(bins@[k as int], provenance@.len()));
        let ghost before = ranged_bins(bins@.take(k as int));
        assert(bins@.take(k + 1).drop_last() =~= bins@.take(k as int));
        assert(bins@.take(k + 1).last() == bins@[k as int]);
        match b.range {
            Some(range) => {
                let obligations = bin_obligations(&b.obligations, provenance, &b.kept);
                let e = Expr {
                    range,
                    snippet: b.snippet.clone(),
                    obligations,
                    kind: expr_kind_of(b.kind),
                    is_body: b.hir_id == body_owner,
                };
                let ghost old_exprs = exprs@;
                let ghost old_nodes = nodes@;
                exprs.push(e);
                nodes.push(b.hir_id);
                proof {
                    let after = ranged_bins(bins@.take(k + 1));
                    assert(after == before.push(bins@[k as int]));
                    assert forall|i: int| 0 <= i < exprs@.len() implies expr_of_bin(
                        #[trigger] exprs@[i],
                        after[i],
                        provenance@,
                        body_owner,
                    ) && nodes@[i] == after[i].hir_id by {
                        if i < old_exprs.len() {
                            assert(exprs@[i] == old_exprs[i]);
                            assert(after[i] == before[i]);
                        }
                    }
                }
            },
            None => {
                proof {
                    assert(ranged_bins(bins@.take(k + 1)) =~= before);
                }
            },
        }
        k = k + 1;
    }
    assert(bins@.take(bins@.len() as int) =~= bins@);
    (exprs, nodes)
}

/// What relating reads of an error that rustc reported: its range, the
/// hashes reported at it, what the branchless search of proof trees found
/// for each hash (`shallow`), and, for the fallback, the expressions whose
/// nodes contain the error's node with which of their nodes contain which
/// (see `child_most_expr`); `enclosing` is `None` when the error has no
/// node of its own.
#[derive(Clone, Debug)]
pub struct ReportedError {
    pub range: CharRange,
    pub predicates: Vec<ObligationHash>,
    pub shallow: Vec<Option<ObligationIdx>>,
    pub enclosing: Option<(Vec<ExprIdx>, Vec<Vec<bool>>)>,
}

/// The error's inputs fit together.
pub open spec fn reported_ok(e: ReportedError) -> bool {
    &&& e.shallow@.len() == e.predicates@.len()
    &&& e.enclosing matches Some((c, enc)) ==> {
        &&& enc@.len() == c@.len()
        &&& forall|a: int| 0 <= a < enc@.len() ==> (#[trigger] enc@[a])@.len() == c@.len()
    }
}

/// The obligation indices that a reported error names.
pub open spec fn matched_indices(raw: Seq<Obligation>, e: ReportedError) -> Seq<ObligationIdx> {
    matched_predicates(raw, e.predicates@, e.shallow@).map_values(
        |x: (ObligationIdx, ObligationHash)| x.0,
    )
}

/// Some expression holds an obligation that the error names.
pub open spec fn has_root_expr(exprs: Seq<Expr>, raw: Seq<Obligation>, e: ReportedError) -> bool {
    exists|i: int| 0 <= i < exprs.len() && #[trigger] holds_any(exprs[i], matched_indices(raw, e))
}

/// Some expression enclosing the error lies inside all the others.
pub open spec fn has_innermost(e: ReportedError) -> bool {
    e.enclosing matches Some((c, enc)) && exists|k: int|
        0 <= k < c@.len() && #[trigger] innermost(enc@, k)
}

/// The error becomes a trait error.
pub open spec fn relates(exprs: Seq<Expr>, raw: Seq<Obligation>, e: ReportedError) -> bool {
    has_root_expr(exprs, raw, e) || has_innermost(e)
}

/// `t` is the trait error made from `e`: at the first expression that
/// holds an obligation it names, with the matched hashes; failing that, at
/// the first innermost enclosing expression, with no hashes.
pub open spec fn trait_error_of(
    exprs: Seq<Expr>,
    raw: Seq<Obligation>,
    e: ReportedError,
    t: TraitError,
) -> bool {
    &&& t.range == e.range
    &&& if has_root_expr(exprs, raw, e) {
        &&& t.idx.0 < exprs.len()
        &&& holds_any(exprs[t.idx.0 as int], matched_indices(raw, e))
        &&& forall|j: int| 0 <= j < t.idx.0 ==> !#[trigger] holds_any(exprs[j], matched_indices(raw, e))
        &&& t.hashes@ == matched_predicates(raw, e.predicates@, e.shallow@).map_values(
            |x: (ObligationIdx, ObligationHash)| x.1,
        )
    } else {
        &&& t.hashes@.len() == 0
        &&& e.enclosing matches Some((c, enc)) && exists|k: int|
            0 <= k < c@.len() && c@[k] == t.idx && #[trigger] innermost(enc@, k) && forall|j: int|
                0 <= j < k ==> !#[trigger] innermost(enc@, j)
    }
}

/// `out` holds, in order, one trait error for each error of `errs` that
/// relates, made from it.
pub open spec fn related_errors(
    exprs: Seq<Expr>,
    raw: Seq<Obligation>,
    errs: Seq<ReportedError>,
    out: Seq<TraitError>,
) -> bool
    decreases errs.len(),
{
    if errs.len() == 0 {
        out.len() == 0
    } else if relates(exprs, raw, errs.last()) {
        &&& out.len() > 0
        &&& trait_error_of(exprs, raw, errs.last(), out.last())
        &&& related_errors(exprs, raw, errs.drop_last(), out.drop_last())
    } else {
        related_errors(exprs, raw, errs.drop_last(), out)
    }
}

/// The trait errors for the errors that rustc reported, in order.
pub fn relate_trait_bounds(
    exprs: &Vec<Expr>,
    raw_obligations: &Vec<Obligation>,
    errs: &Vec<ReportedError>,
) -> (r: Vec<TraitError>)
    requires
        forall|k: int| 0 <= k < errs@.len() ==> reported_ok(#[trigger] errs@[k]),
    ensures
        related_errors(exprs@, raw_obligations@, errs@, r@),
{
    let mut out: Vec<TraitError> = Vec::new();
    let mut k: usize = 0;
    while k < errs.len()
        invariant
            forall|j: int| 0 <= j < errs@.len() ==> reported_ok(#[trigger] errs@[j]),
            k <= errs@.len(),
            related_errors(exprs@, raw_obligations@, errs@.take(k as int), out@),
        decreases errs@.len() - k,
    {
        let e = &errs[k];
        assert(reported_ok(errs@[k as int]));
        let ghost before = out@;
        assert(errs@.take(k + 1).drop_last() =~= errs@.take(k as int));
        assert(errs@.take(k + 1).last() == errs@[k as int]);
        match relate_trait_bound(exprs, raw_obligations, &e.predicates, &e.shallow) {
            Some((idx, hashes)) => {
                out.push(TraitError { idx, range: e.range, hashes });
                proof {
                    assert(holds_any(exprs@[idx.0 as int], matched_indices(raw_obligations@, *e)));
                    assert(has_root_expr(exprs@, raw_obligations@, *e));
                    assert(out@.drop_last() =~= before);
                }
            },
            None => {
                proof {
                    assert(!has_root_expr(exprs@, raw_obligations@, *e));
                }
                match &e.enclosing {
                    Some((cands, enc)) => {
                        match child_most_expr(cands, enc) {
                            Some(idx) => {
                                out.push(TraitError { idx, range: e.range, hashes: Vec::new() });
                                proof {
                                    assert(out@.drop_last() =~= before);
                                }
                            },
                            None => {},
                        }
                    },
                    None => {},
                }
            },
        }
        k = k + 1;
    }
    assert(errs@.take(errs@.len() as int) =~= errs@);
    out
}

/// `out` holds, in order, one trait error for each error node of `nodes`
/// (with its range) that belongs to an expression (`expr_nodes[i]` is the
/// node of expression `i`): at the first such expression, with the hashes of
/// its failed obligations. Other error nodes give nothing.
pub open spec fn unreported_errors(
    exprs: Seq<Expr>,
    raw: Seq<Obligation>,
    expr_nodes: Seq<HirId>,
    nodes: Seq<(HirId, CharRange)>,
    out: Seq<TraitError>,
) -> bool
    decreases nodes.len(),
{
    if nodes.len() == 0 {
        out.len() == 0
    } else if expr_nodes.contains(nodes.last().0) {
        &&& out.len() > 0
        &&& {
            let t = out.last();
            &&& t.range == nodes.last().1
            &&& t.idx.0 < expr_nodes.len()
            &&& expr_nodes[t.idx.0 as int] == nodes.last().0
            &&& forall|j: int| 0 <= j < t.idx.0 ==> #[trigger] expr_nodes[j] != nodes.last().0
            &&& t.hashes@ == failed_hashes(exprs[t.idx.0 as int].obligations@, raw)
        }
        &&& unreported_errors(exprs, raw, expr_nodes, nodes.drop_last(), out.drop_last())
    } else {
        unreported_errors(exprs, raw, expr_nodes, nodes.drop_last(), out)
    }
}

fn first_node(expr_nodes: &Vec<HirId>, h: HirId) -> (r: Option<usize>)
    ensures
        r is None <==> !expr_nodes@.contains(h),
        r matches Some(i) ==> i < expr_nodes@.len() && expr_nodes@[i as int] == h && forall|j: int|
            0 <= j < i ==> #[trigger] expr_nodes@[j] != h,
{
    let mut i: usize = 0;
    while i < expr_nodes.len()
        invariant
            i <= expr_nodes@.len(),
            forall|j: int| 0 <= j < i ==> #[trigger] expr_nodes@[j] != h,
        decreases expr_nodes@.len() - i,
    {
        if expr_nodes[i] == h {
            return Some(i);
        }
        i = i + 1;
    }
    None
}

/// The trait errors for the error nodes that rustc did not report, in
/// order: `nodes` are the error nodes with their ranges and `expr_nodes`
/// the node of each expression.
pub fn relate_unreported_errors(
    exprs: &Vec<Expr>,
    raw_obligations: &Vec<Obligation>,
    expr_nodes: &Vec<HirId>,
    nodes: &Vec<(HirId, CharRange)>,
) -> (r: Vec<TraitError>)
    requires
        expr_nodes@.len() == exprs@.len(),
        forall|e: int, k: int|
            0 <= e < exprs@.len() && 0 <= k < exprs@[e].obligations@.len() ==> (
            #[trigger] exprs@[e].obligations@[k]).0 < raw_obligations@.len(),
    ensures
        unreported_errors(exprs@, raw_obligations@, expr_nodes@, nodes@, r@),
{
    let mut out: Vec<TraitError> = Vec::new();
    let mut k: usize = 0;
    while k < nodes.len()
        invariant
            expr_nodes@.len() == exprs@.len(),
            forall|e: int, k: int|
                0 <= e < exprs@.len() && 0 <= k < exprs@[e].obligations@.len() ==> (
                #[trigger] exprs@[e].obligations@[k]).0 < raw_obligations@.len(),
            k <= nodes@.len(),
            unreported_errors(exprs@, raw_obligations@, expr_nodes@, nodes@.take(k as int), out@),
        decreases nodes@.len() - k,
    {
        let (h, range) = nodes[k];
        let ghost before = out@;
        assert(nodes@.take(k + 1).drop_last() =~= nodes@.take(k as int));
        assert(nodes@.take(k + 1).last() == nodes@[k as int]);
        match first_node(expr_nodes, h) {
            Some(e) => {
                let hashes = unreported_error_hashes(&exprs[e], raw_obligations);
                out.push(TraitError { idx: ExprIdx(e), range, hashes });
                proof {
                    assert(out@.drop_last() =~= before);
                }
            },
            None => {},
        }
        k = k + 1;
    }
    assert(nodes@.take(nodes@.len() as int) =~= nodes@);
    out
}

} // verus!
