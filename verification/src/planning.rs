//! The planner: turns a declarative `Problem` into per-site instruction
//! programs by symbolic execution, rejecting infeasible problems.

use vstd::prelude::*;

use crate::ids::AssetId;
use crate::ids::SiteId;
use crate::model::ComputeArgs;
use crate::model::ComputeArgsView;
use crate::model::Instruction;
use crate::model::InstrView;

verus! {

broadcast use vstd::seq_lib::group_to_multiset_ensures;

/// The declarative input to the planner. `may_access` and `may_compute` are
/// the policy relations, `site_has_asset` the initial distribution of
/// assets, and `do_compute` the computations to perform.
#[derive(Debug)]
pub struct Problem {
    pub may_access: Vec<(SiteId, AssetId)>,
    pub may_compute: Vec<(SiteId, AssetId)>,
    pub site_has_asset: Vec<(SiteId, AssetId)>,
    pub do_compute: Vec<ComputeArgs>,
}

/// Why a problem admits no plan. The offending computation is carried for
/// diagnostics.
#[derive(Debug)]
pub enum PlanError {
    /// Some computations' inputs transitively depend on each other's
    /// outputs (or on assets that nobody holds or produces).
    CyclicCausality(ComputeArgs),
    /// No site satisfies both the access and the compute policy for the
    /// named computation.
    NoSiteForCompute(ComputeArgs),
}

/// The views of a list of computations.
pub open spec fn compute_views(s: Seq<ComputeArgs>) -> Seq<ComputeArgsView> {
    s.map_values(|c: ComputeArgs| c@)
}

impl Problem {
    pub open spec fn access_ok(self, s: SiteId, a: AssetId) -> bool {
        self.may_access@.contains((s, a))
    }

    pub open spec fn compute_ok(self, s: SiteId, a: AssetId) -> bool {
        self.may_compute@.contains((s, a))
    }

    pub open spec fn initially_has(self, s: SiteId, a: AssetId) -> bool {
        self.site_has_asset@.contains((s, a))
    }

    /// The requested computations, in request order.
    pub open spec fn computes(self) -> Seq<ComputeArgsView> {
        compute_views(self.do_compute@)
    }

    /// The assets present somewhere at the start.
    pub open spec fn initial_assets(self) -> Set<AssetId> {
        Set::new(
            |a: AssetId|
                exists|i: int| 0 <= i < self.site_has_asset@.len() && self.site_has_asset@[i].1 == a,
        )
    }
}

/// A site may run computation `c` when the policy lets it execute the
/// program asset and access every needed asset.
pub open spec fn site_eligible(p: Problem, s: SiteId, c: ComputeArgsView) -> bool {
    &&& p.compute_ok(s, c.compute_asset)
    &&& forall|k: int| 0 <= k < c.needed().len() ==> p.access_ok(s, #[trigger] c.needed()[k])
}

/// The candidate the planner considers at position `i` of `may_compute`:
/// the pair names `c`'s program, and its site may access all needed assets.
pub open spec fn eligible_candidate_at(p: Problem, c: ComputeArgsView, i: int) -> bool {
    &&& p.may_compute@[i].1 == c.compute_asset
    &&& forall|k: int|
        0 <= k < c.needed().len() ==> p.access_ok(p.may_compute@[i].0, #[trigger] c.needed()[k])
}

/// Does `list` contain the pair `(s, a)`?
fn pairs_contain(list: &Vec<(SiteId, AssetId)>, s: SiteId, a: AssetId) -> (r: bool)
    ensures
        r == list@.contains((s, a)),
{
    let mut i: usize = 0;
    while i < list.len()
        invariant
            0 <= i <= list@.len(),
            forall|j: int| 0 <= j < i ==> list@[j] != (s, a),
        decreases list@.len() - i,
    {
        let (ls, la) = list[i];
        if ls == s && la == a {
            proof {
                assert(list@[i as int] == (s, a));
            }
            return true;
        }
        i = i + 1;
    }
    false
}

/// May site `s` access every asset in `needed`?
fn may_access_all(problem: &Problem, s: SiteId, needed: &Vec<AssetId>) -> (r: bool)
    ensures
        r == forall|k: int|
            0 <= k < needed@.len() ==> problem.access_ok(s, #[trigger] needed@[k]),
{
    let mut k: usize = 0;
    while k < needed.len()
        invariant
            0 <= k <= needed@.len(),
            forall|j: int| 0 <= j < k ==> problem.access_ok(s, #[trigger] needed@[j]),
        decreases needed@.len() - k,
    {
        if !pairs_contain(&problem.may_access, s, needed[k]) {
            return false;
        }
        k = k + 1;
    }
    true
}

/// Select the first site (in `may_compute` order) that is permitted to run
/// `compute_args` and to access all of its needed assets.
pub fn site_for_compute(problem: &Problem, compute_args: &ComputeArgs) -> (r: Option<SiteId>)
    ensures
        match r {
            Some(s) => exists|i: int|
                {
                    &&& 0 <= i < problem.may_compute@.len()
                    &&& #[trigger] eligible_candidate_at(*problem, compute_args@, i)
                    &&& s == problem.may_compute@[i].0
                    &&& forall|j: int|
                        0 <= j < i ==> !eligible_candidate_at(*problem, compute_args@, j)
                },
            None => forall|i: int|
                0 <= i < problem.may_compute@.len() ==> !eligible_candidate_at(
                    *problem,
                    compute_args@,
                    i,
                ),
        },
        r is Some ==> site_eligible(*problem, r->Some_0, compute_args@),
        r is None ==> forall|s: SiteId| !site_eligible(*problem, s, compute_args@),
{
    let needed = compute_args.needed_assets();
    let ghost c = compute_args@;
    let mut i: usize = 0;
    while i < problem.may_compute.len()
        invariant
            0 <= i <= problem.may_compute@.len(),
            needed@ == c.needed(),
            c == compute_args@,
            forall|j: int| 0 <= j < i ==> !eligible_candidate_at(*problem, c, j),
        decreases problem.may_compute@.len() - i,
    {
        let (s, ca) = problem.may_compute[i];
        if ca == compute_args.compute_asset {
            if may_access_all(problem, s, &needed) {
                proof {
                    assert(eligible_candidate_at(*problem, c, i as int));
                    assert(problem.may_compute@[i as int] == (s, c.compute_asset));
                    assert(problem.may_compute@.contains((s, c.compute_asset)));
                }
                return Some(s);
            }
        }
        i = i + 1;
    }
    proof {
        assert forall|s: SiteId| !site_eligible(*problem, s, c) by {
            if site_eligible(*problem, s, c) {
                let i = choose|i: int|
                    0 <= i < problem.may_compute@.len() && problem.may_compute@[i] == (
                    s,
                    c.compute_asset,
                );
                assert(eligible_candidate_at(*problem, c, i));
            }
        }
    }
    None
}

/// The planner's symbolic picture of who holds what. The pair list only
/// grows, so the first holder of an asset never changes once present.
pub struct SymbolicStore {
    site_has_asset: Vec<(SiteId, AssetId)>,
    someone_has_asset: Vec<AssetId>,
}

impl SymbolicStore {
    /// The held `(site, asset)` pairs, in insertion order.
    pub closed spec fn pairs(self) -> Seq<(SiteId, AssetId)> {
        self.site_has_asset@
    }

    pub open spec fn holds(self, s: SiteId, a: AssetId) -> bool {
        self.pairs().contains((s, a))
    }

    pub open spec fn someone_holds(self, a: AssetId) -> bool {
        exists|i: int| 0 <= i < self.pairs().len() && self.pairs()[i].1 == a
    }

    /// The asset index mirrors the pair list.
    pub closed spec fn wf(self) -> bool {
        &&& forall|i: int|
            0 <= i < self.site_has_asset@.len() ==> self.someone_has_asset@.contains(
                #[trigger] self.site_has_asset@[i].1,
            )
        &&& forall|j: int|
            0 <= j < self.someone_has_asset@.len() ==> exists|i: int|
                0 <= i < self.site_has_asset@.len() && self.site_has_asset@[i].1
                    == #[trigger] self.someone_has_asset@[j]
    }

    /// Start from the problem's initial distribution.
    pub fn with_assets(site_has_asset: &Vec<(SiteId, AssetId)>) -> (r: Self)
        ensures
            r.wf(),
            r.pairs() == site_has_asset@,
    {
        let mut store = SymbolicStore { site_has_asset: Vec::new(), someone_has_asset: Vec::new() };
        let mut i: usize = 0;
        while i < site_has_asset.len()
            invariant
                0 <= i <= site_has_asset@.len(),
                store.wf(),
                store.pairs() == site_has_asset@.take(i as int),
            decreases site_has_asset@.len() - i,
        {
            let (s, a) = site_has_asset[i];
            store.push_pair(s, a);
            proof {
                assert(store.pairs() =~= site_has_asset@.take(i + 1));
            }
            i = i + 1;
        }
        proof {
            assert(site_has_asset@.take(site_has_asset@.len() as int) =~= site_has_asset@);
        }
        store
    }

    /// Append the pair `(s, a)`, keeping the asset index in step.
    #[verifier::spinoff_prover]
    fn push_pair(&mut self, s: SiteId, a: AssetId)
        requires
            old(self).wf(),
        ensures
            final(self).wf(),
            final(self).pairs() == old(self).pairs().push((s, a)),
    {
        let ghost pairs0 = self.site_has_asset@;
        let ghost assets0 = self.someone_has_asset@;
        self.site_has_asset.push((s, a));
        let had = asset_vec_contains(&self.someone_has_asset, a);
        if !had {
            self.someone_has_asset.push(a);
        }
        proof {
            let pairs1 = self.site_has_asset@;
            let assets1 = self.someone_has_asset@;
            assert forall|k: int| 0 <= k < pairs1.len() implies assets1.contains(
                #[trigger] pairs1[k].1,
            ) by {
                if k < pairs0.len() {
                    assert(assets0.contains(pairs0[k].1));
                    let j = choose|j: int| 0 <= j < assets0.len() && assets0[j] == pairs0[k].1;
                    assert(assets1[j] == pairs1[k].1);
                } else {
                    if had {
                        let j = choose|j: int| 0 <= j < assets0.len() && assets0[j] == a;
                        assert(assets1[j] == a);
                    } else {
                        assert(assets1[assets0.len() as int] == a);
                    }
                }
            }
            assert forall|j: int| 0 <= j < assets1.len() implies exists|k: int|
                0 <= k < pairs1.len() && pairs1[k].1 == #[trigger] assets1[j] by {
                if j < assets0.len() {
                    let k = choose|k: int| 0 <= k < pairs0.len() && pairs0[k].1 == assets0[j];
                    assert(pairs1[k].1 == assets1[j]);
                } else {
                    assert(assets1[j] == a);
                    assert(pairs1[pairs0.len() as int].1 == a);
                }
            }
        }
    }

    /// Record that `s` now holds `a` (a no-op when already recorded).
    pub fn insert(&mut self, s: SiteId, a: AssetId)
        requires
            old(self).wf(),
        ensures
            final(self).wf(),
            old(self).holds(s, a) ==> final(self).pairs() == old(self).pairs(),
            !old(self).holds(s, a) ==> final(self).pairs() == old(self).pairs().push((s, a)),
            final(self).holds(s, a),
            forall|x: AssetId|
                final(self).someone_holds(x) <==> (old(self).someone_holds(x) || x == a),
            forall|s2: SiteId, a2: AssetId|
                old(self).holds(s2, a2) ==> final(self).holds(s2, a2),
    {
        if !self.contains_pair(s, a) {
            self.push_pair(s, a);
            proof {
                let pairs0 = old(self).pairs();
                let pairs1 = self.pairs();
                assert(pairs1[pairs0.len() as int] == (s, a));
                assert(pairs1.contains((s, a)));
                assert forall|x: AssetId|
                    self.someone_holds(x) <==> (old(self).someone_holds(x) || x == a) by {
                    if old(self).someone_holds(x) {
                        let i = choose|i: int| 0 <= i < pairs0.len() && pairs0[i].1 == x;
                        assert(pairs1[i].1 == x);
                        assert(self.someone_holds(x));
                    }
                    if x == a {
                        assert(pairs1[pairs0.len() as int].1 == x);
                        assert(self.someone_holds(x));
                    }
                    if self.someone_holds(x) && x != a {
                        let i = choose|i: int| 0 <= i < pairs1.len() && pairs1[i].1 == x;
                        assert(i < pairs0.len());
                        assert(pairs0[i].1 == x);
                        assert(old(self).someone_holds(x));
                    }
                }
                assert forall|s2: SiteId, a2: AssetId| old(self).holds(s2, a2) implies self.holds(
                    s2,
                    a2,
                ) by {
                    let i = choose|i: int| 0 <= i < pairs0.len() && pairs0[i] == (s2, a2);
                    assert(pairs1[i] == (s2, a2));
                }
            }
        } else {
            proof {
                assert(old(self).holds(s, a));
                let i = choose|i: int|
                    0 <= i < old(self).pairs().len() && old(self).pairs()[i] == (s, a);
                assert(old(self).pairs()[i].1 == a);
                assert(old(self).someone_holds(a));
            }
        }
    }

    /// Does this store record `s` holding `a`?
    pub fn contains_pair(&self, s: SiteId, a: AssetId) -> (r: bool)
        ensures
            r == self.holds(s, a),
    {
        pairs_contain(&self.site_has_asset, s, a)
    }

    /// Does anyone hold `a`?
    pub fn holds_somewhere(&self, a: AssetId) -> (r: bool)
        requires
            self.wf(),
        ensures
            r == self.someone_holds(a),
    {
        let r = asset_vec_contains(&self.someone_has_asset, a);
        proof {
            if r {
                let j = choose|j: int|
                    0 <= j < self.someone_has_asset@.len() && self.someone_has_asset@[j] == a;
                assert(exists|i: int|
                    0 <= i < self.site_has_asset@.len() && self.site_has_asset@[i].1
                        == self.someone_has_asset@[j]);
                let i = choose|i: int|
                    0 <= i < self.site_has_asset@.len() && self.site_has_asset@[i].1
                        == self.someone_has_asset@[j];
                assert(self.pairs()[i].1 == a);
            } else {
                if self.someone_holds(a) {
                    let i = choose|i: int|
                        0 <= i < self.pairs().len() && self.pairs()[i].1 == a;
                    assert(self.someone_has_asset@.contains(self.site_has_asset@[i].1));
                }
            }
        }
        r
    }

    /// The site of the first recorded pair holding `a`.
    pub fn first_holder(&self, a: AssetId) -> (r: Option<SiteId>)
        ensures
            match r {
                Some(s) => exists|i: int|
                    {
                        &&& 0 <= i < self.pairs().len()
                        &&& #[trigger] self.pairs()[i] == (s, a)
                        &&& forall|j: int| 0 <= j < i ==> self.pairs()[j].1 != a
                    },
                None => !self.someone_holds(a),
            },
    {
        let mut i: usize = 0;
        while i < self.site_has_asset.len()
            invariant
                0 <= i <= self.site_has_asset@.len(),
                forall|j: int| 0 <= j < i ==> self.pairs()[j].1 != a,
            decreases self.site_has_asset@.len() - i,
        {
            let (s, la) = self.site_has_asset[i];
            if la == a {
                proof {
                    assert(self.pairs()[i as int] == (s, a));
                }
                return Some(s);
            }
            i = i + 1;
        }
        None
    }
}

/// Does `list` contain `a`?
fn asset_vec_contains(list: &Vec<AssetId>, a: AssetId) -> (r: bool)
    ensures
        r == list@.contains(a),
{
    let mut i: usize = 0;
    while i < list.len()
        invariant
            0 <= i <= list@.len(),
            forall|j: int| 0 <= j < i ==> list@[j] != a,
        decreases list@.len() - i,
    {
        if list[i] == a {
            return true;
        }
        i = i + 1;
    }
    false
}

/// All assets needed by `c` are held somewhere in `store`.
pub open spec fn compute_feasible(store: SymbolicStore, c: ComputeArgsView) -> bool {
    forall|k: int| 0 <= k < c.needed().len() ==> store.someone_holds(#[trigger] c.needed()[k])
}

fn compute_is_feasible(store: &SymbolicStore, c: &ComputeArgs) -> (r: bool)
    requires
        store.wf(),
    ensures
        r == compute_feasible(*store, c@),
{
    let needed = c.needed_assets();
    let mut k: usize = 0;
    while k < needed.len()
        invariant
            0 <= k <= needed@.len(),
            needed@ == c@.needed(),
            store.wf(),
            forall|j: int| 0 <= j < k ==> store.someone_holds(#[trigger] needed@[j]),
        decreases needed@.len() - k,
    {
        if !store.holds_somewhere(needed[k]) {
            return false;
        }
        k = k + 1;
    }
    true
}

/// The computations that remain to be sequenced.
pub struct SymbolicProgress {
    computes_todo: Vec<ComputeArgs>,
}

impl View for SymbolicProgress {
    type V = Seq<ComputeArgsView>;

    closed spec fn view(&self) -> Seq<ComputeArgsView> {
        compute_views(self.computes_todo@)
    }
}

proof fn lemma_compute_views_remove(s: Seq<ComputeArgs>, i: int)
    requires
        0 <= i < s.len(),
    ensures
        compute_views(s.remove(i)) == compute_views(s).remove(i),
{
    assert(compute_views(s.remove(i)) =~= compute_views(s).remove(i));
}

impl SymbolicProgress {
    /// Start with every requested computation still to do.
    pub fn with_compute_to_do(computes: &Vec<ComputeArgs>) -> (r: Self)
        ensures
            r@ == compute_views(computes@),
    {
        let mut todo: Vec<ComputeArgs> = Vec::new();
        let mut i: usize = 0;
        while i < computes.len()
            invariant
                0 <= i <= computes@.len(),
                todo@.len() == i,
                compute_views(todo@) == compute_views(computes@).take(i as int),
            decreases computes@.len() - i,
        {
            let nc = clone_compute(&computes[i]);
            todo.push(nc);
            proof {
                assert(nc@ == computes@[i as int]@);
                assert(compute_views(todo@).len() == i + 1);
                assert forall|k: int| 0 <= k < i + 1 implies compute_views(todo@)[k]
                    == compute_views(computes@).take(i + 1)[k] by {
                    if k < i {
                        assert(compute_views(todo@)[k] == compute_views(computes@).take(
                            i as int,
                        )[k]);
                    }
                }
                assert(compute_views(todo@) =~= compute_views(computes@).take(i + 1));
            }
            i = i + 1;
        }
        proof {
            assert(compute_views(computes@).take(computes@.len() as int) =~= compute_views(
                computes@,
            ));
        }
        SymbolicProgress { computes_todo: todo }
    }

    /// Take the first computation whose needed assets are all held
    /// somewhere. `Err(None)` means every computation is done; `Err(Some(c))`
    /// reports a copy of the first computation of a set none of which can
    /// become feasible, leaving the remaining set unchanged.
    pub fn take_feasible_compute(&mut self, store: &SymbolicStore) -> (r: Result<
        ComputeArgs,
        Option<ComputeArgs>,
    >)
        requires
            store.wf(),
        ensures
            match r {
                Ok(c) => exists|i: int|
                    {
                        &&& 0 <= i < old(self)@.len()
                        &&& c@ == old(self)@[i]
                        &&& #[trigger] compute_feasible(*store, old(self)@[i])
                        &&& forall|j: int|
                            0 <= j < i ==> !compute_feasible(*store, old(self)@[j])
                        &&& final(self)@ == old(self)@.remove(i)
                    },
                Err(rem) => {
                    &&& forall|i: int|
                        0 <= i < old(self)@.len() ==> !compute_feasible(
                            *store,
                            #[trigger] old(self)@[i],
                        )
                    &&& final(self)@ == old(self)@
                    &&& match rem {
                        None => old(self)@.len() == 0,
                        Some(c) => old(self)@.len() > 0 && c@ == old(self)@[0],
                    }
                },
            },
    {
        let mut i: usize = 0;
        while i < self.computes_todo.len()
            invariant
                0 <= i <= self.computes_todo@.len(),
                store.wf(),
                *self == *old(self),
                forall|j: int| 0 <= j < i ==> !compute_feasible(*store, #[trigger] self@[j]),
            decreases self.computes_todo@.len() - i,
        {
            if compute_is_feasible(store, &self.computes_todo[i]) {
                proof {
                    lemma_compute_views_remove(self.computes_todo@, i as int);
                    assert(compute_feasible(*store, old(self)@[i as int]));
                }
                let c = self.computes_todo.remove(i);
                proof {
                    let ii = i as int;
                    assert(c@ == old(self)@[ii]);
                    assert(self@ == old(self)@.remove(ii));
                    assert(forall|j: int|
                        0 <= j < ii ==> !compute_feasible(*store, #[trigger] old(self)@[j]));
                }
                return Ok(c);
            }
            i = i + 1;
        }
        proof {
            assert(forall|i: int|
                0 <= i < old(self)@.len() ==> !compute_feasible(*store, #[trigger] old(self)@[i]));
        }
        if self.computes_todo.len() == 0 {
            Err(None)
        } else {
            let c = clone_compute(&self.computes_todo[0]);
            Err(Some(c))
        }
    }
}

/// A structural copy of one computation.
fn clone_compute(c: &ComputeArgs) -> (r: ComputeArgs)
    ensures
        r@ == c@,
{
    let mut inputs: Vec<AssetId> = Vec::new();
    let mut outputs: Vec<AssetId> = Vec::new();
    copy_assets_into(&c.inputs, &mut inputs);
    copy_assets_into(&c.outputs, &mut outputs);
    proof {
        assert(inputs@ =~= c.inputs@);
        assert(outputs@ =~= c.outputs@);
    }
    let r = ComputeArgs { inputs, outputs, compute_asset: c.compute_asset };
    proof {
        assert(r@ =~= c@);
    }
    r
}

/// A plan: the placements `(site, instruction)` the planner emitted, in
/// emission order. The instructions of one site form an unordered multiset.
pub struct Plan {
    items: Vec<(SiteId, Instruction)>,
}

/// The views of a list of placements.
pub open spec fn item_views(s: Seq<(SiteId, Instruction)>) -> Seq<(SiteId, InstrView)> {
    s.map_values(|e: (SiteId, Instruction)| (e.0, e.1@))
}

impl View for Plan {
    type V = Seq<(SiteId, InstrView)>;

    closed spec fn view(&self) -> Seq<(SiteId, InstrView)> {
        item_views(self.items@)
    }
}

impl Plan {
    pub fn new() -> (r: Self)
        ensures
            r@ == Seq::<(SiteId, InstrView)>::empty(),
    {
        let r = Plan { items: Vec::new() };
        proof {
            assert(r@ =~= Seq::<(SiteId, InstrView)>::empty());
        }
        r
    }

    pub fn len(&self) -> (r: usize)
        ensures
            r == self@.len(),
    {
        self.items.len()
    }

    pub fn site_at(&self, i: usize) -> (r: SiteId)
        requires
            i < self@.len(),
        ensures
            r == self@[i as int].0,
    {
        let e = &self.items[i];
        e.0
    }

    pub fn instruction_at(&self, i: usize) -> (r: &Instruction)
        requires
            i < self@.len(),
        ensures
            r@ == self@[i as int].1,
    {
        &self.items[i].1
    }

    /// Take the placements out, in emission order.
    pub fn into_items(self) -> (r: Vec<(SiteId, Instruction)>)
        ensures
            item_views(r@) == self@,
    {
        self.items
    }

    fn push_item(&mut self, s: SiteId, ins: Instruction)
        ensures
            final(self)@ == old(self)@.push((s, ins@)),
    {
        let ghost v = ins@;
        self.items.push((s, ins));
        proof {
            assert(self@ =~= old(self)@.push((s, v)));
        }
    }
}

pub open spec fn is_compute_item(e: (SiteId, InstrView)) -> bool {
    e.1 is ComputeAssetData
}

pub open spec fn compute_item_args(e: (SiteId, InstrView)) -> ComputeArgsView {
    match e.1 {
        InstrView::ComputeAssetData(c) => c,
        _ => arbitrary(),
    }
}

pub open spec fn is_acquire_item(e: (SiteId, InstrView)) -> bool {
    e.1 is AcquireAssetFrom
}

pub open spec fn is_send_item(e: (SiteId, InstrView)) -> bool {
    e.1 is SendAssetTo
}

/// An acquire placement as `(acquirer, asset, source)`.
pub open spec fn acquire_route(e: (SiteId, InstrView)) -> (SiteId, AssetId, SiteId) {
    match e.1 {
        InstrView::AcquireAssetFrom { asset_id, site_id } => (e.0, asset_id, site_id),
        _ => arbitrary(),
    }
}

/// A send placement as `(receiver, asset, sender)`.
pub open spec fn send_route(e: (SiteId, InstrView)) -> (SiteId, AssetId, SiteId) {
    match e.1 {
        InstrView::SendAssetTo { asset_id, site_id } => (site_id, asset_id, e.0),
        _ => arbitrary(),
    }
}

/// The computations placed by the plan, in placement order.
pub open spec fn computes_of(pv: Seq<(SiteId, InstrView)>) -> Seq<ComputeArgsView> {
    pv.filter(|e: (SiteId, InstrView)| is_compute_item(e)).map_values(
        |e: (SiteId, InstrView)| compute_item_args(e),
    )
}

/// The acquire placements, as routing triples.
pub open spec fn acquires_of(pv: Seq<(SiteId, InstrView)>) -> Seq<(SiteId, AssetId, SiteId)> {
    pv.filter(|e: (SiteId, InstrView)| is_acquire_item(e)).map_values(
        |e: (SiteId, InstrView)| acquire_route(e),
    )
}

/// The send placements, as routing triples.
pub open spec fn sends_of(pv: Seq<(SiteId, InstrView)>) -> Seq<(SiteId, AssetId, SiteId)> {
    pv.filter(|e: (SiteId, InstrView)| is_send_item(e)).map_values(
        |e: (SiteId, InstrView)| send_route(e),
    )
}

/// Plan soundness: every placed computation sits at a site that the policy
/// permits to run its program and to access every needed asset.
pub open spec fn plan_computes_sound(p: Problem, pv: Seq<(SiteId, InstrView)>) -> bool {
    forall|k: int|
        0 <= k < pv.len() ==> ((#[trigger] pv[k]).1 matches InstrView::ComputeAssetData(c)
            ==> site_eligible(p, pv[k].0, c))
}

/// No needless work: nothing is acquired at a site that already held the
/// asset initially.
pub open spec fn plan_no_needless_acquires(p: Problem, pv: Seq<(SiteId, InstrView)>) -> bool {
    forall|k: int|
        0 <= k < pv.len() ==> ((#[trigger] pv[k]).1 matches InstrView::AcquireAssetFrom {
            asset_id,
            site_id,
        } ==> !p.initially_has(pv[k].0, asset_id))
}

/// Some placed computation at site `s` outputs asset `a`.
pub open spec fn compute_outputs_at(pv: Seq<(SiteId, InstrView)>, s: SiteId, a: AssetId) -> bool {
    exists|k: int|
        0 <= k < pv.len() && (#[trigger] pv[k]).0 == s && (pv[k].1 matches
        InstrView::ComputeAssetData(c) && c.outputs.contains(a))
}

/// Routing dual, source half: the source of every acquire held the asset
/// initially, or is the site of a placed computation that outputs it.
pub open spec fn plan_sources_justified(p: Problem, pv: Seq<(SiteId, InstrView)>) -> bool {
    forall|k: int|
        0 <= k < pv.len() ==> ((#[trigger] pv[k]).1 matches InstrView::AcquireAssetFrom {
            asset_id,
            site_id,
        } ==> p.initially_has(site_id, asset_id) || compute_outputs_at(pv, site_id, asset_id))
}

/// Routing dual, pairing half: the acquire and send placements form the
/// same sequence of routing triples, so each acquire at its receiver has
/// exactly one matching send at its source, and conversely.
pub open spec fn plan_routes_paired(pv: Seq<(SiteId, InstrView)>) -> bool {
    acquires_of(pv) == sends_of(pv)
}

/// The plan places an acquire of asset `a` at site `s`.
pub open spec fn plan_has_acquire(pv: Seq<(SiteId, InstrView)>, s: SiteId, a: AssetId) -> bool {
    exists|k: int|
        0 <= k < pv.len() && (#[trigger] pv[k]).0 == s && (pv[k].1 matches
        InstrView::AcquireAssetFrom { asset_id, site_id } && asset_id == a)
}

/// Some placed computation at site `s` needs asset `a`.
pub open spec fn compute_needs_at(pv: Seq<(SiteId, InstrView)>, s: SiteId, a: AssetId) -> bool {
    exists|k: int|
        0 <= k < pv.len() && (#[trigger] pv[k]).0 == s && (pv[k].1 matches
        InstrView::ComputeAssetData(c) && c.needed().contains(a))
}

/// Routing completeness: every asset a placed computation needs is at the
/// compute site — initially, as the output of a computation placed there,
/// or through an acquire placed there.
pub open spec fn plan_routing_complete(p: Problem, pv: Seq<(SiteId, InstrView)>) -> bool {
    forall|k: int|
        0 <= k < pv.len() ==> ((#[trigger] pv[k]).1 matches InstrView::ComputeAssetData(c)
            ==> forall|m: int|
                0 <= m < c.needed().len() ==> {
                    ||| p.initially_has(pv[k].0, #[trigger] c.needed()[m])
                    ||| compute_outputs_at(pv, pv[k].0, c.needed()[m])
                    ||| plan_has_acquire(pv, pv[k].0, c.needed()[m])
                })
}

/// No spurious routes: every acquire serves a computation placed at the
/// acquiring site that needs the acquired asset.
pub open spec fn plan_acquires_needed(pv: Seq<(SiteId, InstrView)>) -> bool {
    forall|k: int|
        0 <= k < pv.len() ==> ((#[trigger] pv[k]).1 matches InstrView::AcquireAssetFrom {
            asset_id,
            site_id,
        } ==> compute_needs_at(pv, pv[k].0, asset_id))
}

/// While one computation's routes are being recorded, an acquire may also
/// be waiting for that computation's own placement at `s`.
spec fn plan_acquires_needed_or(pv: Seq<(SiteId, InstrView)>, s: SiteId, c: ComputeArgsView) -> bool {
    forall|k: int|
        0 <= k < pv.len() ==> ((#[trigger] pv[k]).1 matches InstrView::AcquireAssetFrom {
            asset_id,
            site_id,
        } ==> compute_needs_at(pv, pv[k].0, asset_id) || (pv[k].0 == s && c.needed().contains(
            asset_id,
        )))
}

/// No asset is acquired twice at one site.
pub open spec fn plan_acquires_unique(pv: Seq<(SiteId, InstrView)>) -> bool {
    forall|k1: int, k2: int|
        0 <= k1 < pv.len() && 0 <= k2 < pv.len() && k1 != k2 ==> !((#[trigger] pv[k1]).1 matches
        InstrView::AcquireAssetFrom { asset_id: a1, site_id: s1 } && ((#[trigger] pv[k2]).1 matches
        InstrView::AcquireAssetFrom { asset_id: a2, site_id: s2 } && pv[k1].0 == pv[k2].0 && a1
            == a2))
}

/// Every held pair of the symbolic store is an initial holding, a computed
/// output at that site, or acquired there.
spec fn pairs_covered(
    p: Problem,
    pv: Seq<(SiteId, InstrView)>,
    pairs: Seq<(SiteId, AssetId)>,
) -> bool {
    forall|i: int|
        0 <= i < pairs.len() ==> {
            ||| p.site_has_asset@.contains(#[trigger] pairs[i])
            ||| compute_outputs_at(pv, pairs[i].0, pairs[i].1)
            ||| plan_has_acquire(pv, pairs[i].0, pairs[i].1)
        }
}

/// Every acquired pair is recorded in the symbolic store, so no asset is
/// ever acquired twice at one site.
spec fn acquires_recorded(pv: Seq<(SiteId, InstrView)>, pairs: Seq<(SiteId, AssetId)>) -> bool {
    forall|k: int|
        0 <= k < pv.len() ==> ((#[trigger] pv[k]).1 matches InstrView::AcquireAssetFrom {
            asset_id,
            site_id,
        } ==> pairs.contains((pv[k].0, asset_id)))
}

/// A recorded acquire stays recorded as the plan grows.
proof fn lemma_has_acquire_push(
    pv: Seq<(SiteId, InstrView)>,
    e: (SiteId, InstrView),
    s: SiteId,
    a: AssetId,
)
    requires
        plan_has_acquire(pv, s, a),
    ensures
        plan_has_acquire(pv.push(e), s, a),
{
    let k = choose|k: int|
        0 <= k < pv.len() && (#[trigger] pv[k]).0 == s && (pv[k].1 matches
        InstrView::AcquireAssetFrom { asset_id, site_id } && asset_id == a);
    assert(pv.push(e)[k] == pv[k]);
}

/// A recorded need stays recorded as the plan grows.
proof fn lemma_needs_at_push(
    pv: Seq<(SiteId, InstrView)>,
    e: (SiteId, InstrView),
    s: SiteId,
    a: AssetId,
)
    requires
        compute_needs_at(pv, s, a),
    ensures
        compute_needs_at(pv.push(e), s, a),
{
    let k = choose|k: int|
        0 <= k < pv.len() && (#[trigger] pv[k]).0 == s && (pv[k].1 matches
        InstrView::ComputeAssetData(c) && c.needed().contains(a));
    assert(pv.push(e)[k] == pv[k]);
}

/// Whenever a pair is the first in the symbolic store to hold its asset,
/// that pair is an initial holding or the asset is output by a computation
/// placed at that site.
pub open spec fn first_holders_justified(
    p: Problem,
    pv: Seq<(SiteId, InstrView)>,
    pairs: Seq<(SiteId, AssetId)>,
) -> bool {
    forall|i: int|
        0 <= i < pairs.len() && (forall|j: int| 0 <= j < i ==> pairs[j].1 != pairs[i].1)
            ==> p.site_has_asset@.contains(#[trigger] pairs[i]) || compute_outputs_at(
            pv,
            pairs[i].0,
            pairs[i].1,
        )
}

proof fn lemma_filter_map_push<A, B>(s: Seq<A>, pred: spec_fn(A) -> bool, f: spec_fn(A) -> B, x: A)
    ensures
        pred(x) ==> s.push(x).filter(pred).map_values(f) == s.filter(pred).map_values(f).push(f(x)),
        !pred(x) ==> s.push(x).filter(pred).map_values(f) == s.filter(pred).map_values(f),
{
    reveal(Seq::filter);
    assert(s.push(x).drop_last() =~= s);
    assert(s.push(x).last() == x);
    if pred(x) {
        assert(s.push(x).filter(pred) == s.filter(pred).push(x));
        assert(s.push(x).filter(pred).map_values(f) =~= s.filter(pred).map_values(f).push(f(x)));
    } else {
        assert(s.push(x).filter(pred) == s.filter(pred));
    }
}

/// How each projection of the plan changes when one placement is appended.
proof fn lemma_plan_push(pv: Seq<(SiteId, InstrView)>, e: (SiteId, InstrView))
    ensures
        is_compute_item(e) ==> computes_of(pv.push(e)) == computes_of(pv).push(
            compute_item_args(e),
        ),
        !is_compute_item(e) ==> computes_of(pv.push(e)) == computes_of(pv),
        is_acquire_item(e) ==> acquires_of(pv.push(e)) == acquires_of(pv).push(acquire_route(e)),
        !is_acquire_item(e) ==> acquires_of(pv.push(e)) == acquires_of(pv),
        is_send_item(e) ==> sends_of(pv.push(e)) == sends_of(pv).push(send_route(e)),
        !is_send_item(e) ==> sends_of(pv.push(e)) == sends_of(pv),
{
    lemma_filter_map_push(
        pv,
        |q: (SiteId, InstrView)| is_compute_item(q),
        |q: (SiteId, InstrView)| compute_item_args(q),
        e,
    );
    lemma_filter_map_push(
        pv,
        |q: (SiteId, InstrView)| is_acquire_item(q),
        |q: (SiteId, InstrView)| acquire_route(q),
        e,
    );
    lemma_filter_map_push(
        pv,
        |q: (SiteId, InstrView)| is_send_item(q),
        |q: (SiteId, InstrView)| send_route(q),
        e,
    );
}

/// A computation output recorded in the plan stays recorded as the plan
/// grows.
proof fn lemma_outputs_at_push(
    pv: Seq<(SiteId, InstrView)>,
    e: (SiteId, InstrView),
    s: SiteId,
    a: AssetId,
)
    requires
        compute_outputs_at(pv, s, a),
    ensures
        compute_outputs_at(pv.push(e), s, a),
{
    let k = choose|k: int|
        0 <= k < pv.len() && (#[trigger] pv[k]).0 == s && (pv[k].1 matches
        InstrView::ComputeAssetData(c) && c.outputs.contains(a));
    assert(pv.push(e)[k] == pv[k]);
}

proof fn lemma_contains_push<A>(s: Seq<A>, x: A, y: A)
    requires
        s.contains(y),
    ensures
        s.push(x).contains(y),
{
    let i = choose|i: int| 0 <= i < s.len() && s[i] == y;
    assert(s.push(x)[i] == y);
}

/// The assets a computation outputs, as a set.
pub open spec fn compute_outputs_set(c: ComputeArgsView) -> Set<AssetId> {
    Set::new(|a: AssetId| c.outputs.contains(a))
}

/// The assets output by any computation in the list.
pub open spec fn seq_outputs(cs: Seq<ComputeArgsView>) -> Set<AssetId> {
    Set::new(
        |a: AssetId| exists|i: int| 0 <= i < cs.len() && (#[trigger] cs[i]).outputs.contains(a),
    )
}

/// Every asset `c` needs is available.
pub open spec fn feasible_from(c: ComputeArgsView, avail: Set<AssetId>) -> bool {
    forall|k: int| 0 <= k < c.needed().len() ==> avail.contains(#[trigger] c.needed()[k])
}

/// `order` is a valid processing order from the initial assets `avail0`:
/// each computation needs only initial assets and outputs of earlier ones.
pub open spec fn schedule_ok(avail0: Set<AssetId>, order: Seq<ComputeArgsView>) -> bool {
    forall|j: int|
        0 <= j < order.len() ==> feasible_from(
            #[trigger] order[j],
            avail0.union(seq_outputs(order.take(j))),
        )
}

/// Some processing order of the computations exists. This is the acyclicity
/// criterion of the dependency graph over the computations: an order exists
/// exactly when no group of computations waits on each other's outputs (or
/// on an asset nobody holds or produces).
pub open spec fn schedulable(avail0: Set<AssetId>, cs: Seq<ComputeArgsView>) -> bool {
    exists|order: Seq<ComputeArgsView>|
        order.to_multiset() == cs.to_multiset() && #[trigger] schedule_ok(avail0, order)
}

proof fn lemma_schedule_shift(avail0: Set<AssetId>, order: Seq<ComputeArgsView>)
    requires
        order.len() > 0,
        schedule_ok(avail0, order),
    ensures
        schedule_ok(avail0.union(compute_outputs_set(order[0])), order.drop_first()),
{
    let c0 = order[0];
    let t = order.drop_first();
    assert forall|j: int| 0 <= j < t.len() implies feasible_from(
        #[trigger] t[j],
        avail0.union(compute_outputs_set(c0)).union(seq_outputs(t.take(j))),
    ) by {
        assert(order[j + 1] == t[j]);
        assert(feasible_from(order[j + 1], avail0.union(seq_outputs(order.take(j + 1)))));
        assert forall|a: AssetId|
            avail0.union(seq_outputs(order.take(j + 1))).contains(a) implies avail0.union(
            compute_outputs_set(c0),
        ).union(seq_outputs(t.take(j))).contains(a) by {
            if seq_outputs(order.take(j + 1)).contains(a) {
                let i = choose|i: int|
                    0 <= i < order.take(j + 1).len() && (#[trigger] order.take(j + 1)[i]).outputs
                        .contains(a);
                if i == 0 {
                    assert(compute_outputs_set(c0).contains(a));
                } else {
                    assert(t.take(j)[i - 1] == order[i]);
                    assert((t.take(j)[i - 1]).outputs.contains(a));
                    assert(seq_outputs(t.take(j)).contains(a));
                }
            }
        }
        assert forall|k: int| 0 <= k < (t[j]).needed().len() implies avail0.union(
            compute_outputs_set(c0),
        ).union(seq_outputs(t.take(j))).contains(#[trigger] (t[j]).needed()[k]) by {
            assert(avail0.union(seq_outputs(order.take(j + 1))).contains((t[j]).needed()[k]));
        }
    }
}

/// Greedy saturation dominates every schedule: if each remaining
/// computation is infeasible even with the outputs of everything already
/// done, then no complete processing order exists unless nothing remains.
proof fn lemma_stuck_unschedulable(
    avail0: Set<AssetId>,
    done: Seq<ComputeArgsView>,
    rem: Seq<ComputeArgsView>,
    order: Seq<ComputeArgsView>,
)
    requires
        order.to_multiset() == done.to_multiset().add(rem.to_multiset()),
        schedule_ok(avail0, order),
        forall|i: int|
            0 <= i < rem.len() ==> !feasible_from(
                #[trigger] rem[i],
                avail0.union(seq_outputs(done)),
            ),
    ensures
        rem.len() == 0,
    decreases order.len(),
{
    if order.len() == 0 {
        assert(order.to_multiset().len() == 0);
        assert(rem.to_multiset().len() == 0);
    } else {
        let c0 = order[0];
        let g = avail0.union(seq_outputs(done));
        assert(order.take(0) =~= Seq::<ComputeArgsView>::empty());
        assert(avail0.union(seq_outputs(order.take(0))) =~= avail0);
        assert(feasible_from(c0, avail0));
        assert forall|k: int| 0 <= k < c0.needed().len() implies g.contains(
            #[trigger] c0.needed()[k],
        ) by {
            assert(avail0.contains(c0.needed()[k]));
        }
        assert(feasible_from(c0, g));
        if rem.contains(c0) {
            let i = choose|i: int| 0 <= i < rem.len() && rem[i] == c0;
            assert(!feasible_from(rem[i], g));
            assert(false);
        }
        assert(order[0] == c0);
        assert(order.contains(c0));
        assert(order.to_multiset().count(c0) > 0);
        assert(rem.to_multiset().count(c0) == 0);
        assert(done.to_multiset().count(c0) > 0);
        assert(done.contains(c0));
        let di = choose|di: int| 0 <= di < done.len() && done[di] == c0;
        let done1 = done.remove(di);
        let order1 = order.drop_first();
        let avail1 = avail0.union(compute_outputs_set(c0));
        assert(order1 =~= order.remove(0));
        assert(order1.to_multiset() =~= order.to_multiset().remove(c0));
        assert(done1.to_multiset() =~= done.to_multiset().remove(c0));
        assert forall|x: ComputeArgsView|
            order1.to_multiset().count(x) == done1.to_multiset().add(
                rem.to_multiset(),
            ).count(x) by {
            if x == c0 {
                assert(order.to_multiset().count(c0) == done.to_multiset().count(c0)
                    + rem.to_multiset().count(c0));
            }
        }
        assert(order1.to_multiset() =~= done1.to_multiset().add(rem.to_multiset()));
        lemma_schedule_shift(avail0, order);
        // the saturated asset set is unchanged by moving c0 from done to the base
        assert forall|a: AssetId|
            avail1.union(seq_outputs(done1)).contains(a) <==> g.contains(a) by {
            if compute_outputs_set(c0).contains(a) {
                assert(done[di].outputs.contains(a));
                assert(seq_outputs(done).contains(a));
            }
            if seq_outputs(done1).contains(a) {
                let i = choose|i: int|
                    0 <= i < done1.len() && (#[trigger] done1[i]).outputs.contains(a);
                let ii = if i < di {
                    i
                } else {
                    i + 1
                };
                assert(done[ii] == done1[i]);
                assert(seq_outputs(done).contains(a));
            }
            if seq_outputs(done).contains(a) {
                let i = choose|i: int|
                    0 <= i < done.len() && (#[trigger] done[i]).outputs.contains(a);
                if i == di {
                    assert(compute_outputs_set(c0).contains(a));
                } else {
                    let ii = if i < di {
                        i
                    } else {
                        i - 1
                    };
                    assert(done1[ii] == done[i]);
                    assert(seq_outputs(done1).contains(a));
                }
            }
        }
        assert(avail1.union(seq_outputs(done1)) =~= g);
        lemma_stuck_unschedulable(avail1, done1, rem, order1);
    }
}

/// The planner's invariants survive recording one routing step: a send at
/// the (justified) first holder paired with an acquire at the compute site,
/// and the new holding.
proof fn lemma_route_step(
    p: Problem,
    pv0: Seq<(SiteId, InstrView)>,
    done: Seq<ComputeArgsView>,
    pairs0: Seq<(SiteId, AssetId)>,
    compute_site: SiteId,
    having_site: SiteId,
    a: AssetId,
    c: ComputeArgsView,
)
    requires
        computes_of(pv0) == done,
        plan_computes_sound(p, pv0),
        plan_routes_paired(pv0),
        plan_no_needless_acquires(p, pv0),
        plan_sources_justified(p, pv0),
        first_holders_justified(p, pv0, pairs0),
        pairs_covered(p, pv0, pairs0),
        acquires_recorded(pv0, pairs0),
        plan_acquires_unique(pv0),
        plan_acquires_needed_or(pv0, compute_site, c),
        plan_routing_complete(p, pv0),
        c.needed().contains(a),
        !pairs0.contains((compute_site, a)),
        exists|hi: int|
            {
                &&& 0 <= hi < pairs0.len()
                &&& #[trigger] pairs0[hi] == (having_site, a)
                &&& forall|j: int| 0 <= j < hi ==> pairs0[j].1 != a
            },
        forall|q: int|
            0 <= q < p.site_has_asset@.len() ==> pairs0.contains(#[trigger] p.site_has_asset@[q]),
    ensures
        ({
            let send_e = (having_site, InstrView::SendAssetTo { asset_id: a, site_id: compute_site });
            let acq_e = (
                compute_site,
                InstrView::AcquireAssetFrom { asset_id: a, site_id: having_site },
            );
            let pv2 = pv0.push(send_e).push(acq_e);
            let pairs1 = pairs0.push((compute_site, a));
            &&& computes_of(pv2) == done
            &&& plan_computes_sound(p, pv2)
            &&& plan_routes_paired(pv2)
            &&& plan_no_needless_acquires(p, pv2)
            &&& plan_sources_justified(p, pv2)
            &&& first_holders_justified(p, pv2, pairs1)
            &&& pairs_covered(p, pv2, pairs1)
            &&& acquires_recorded(pv2, pairs1)
            &&& plan_acquires_unique(pv2)
            &&& plan_acquires_needed_or(pv2, compute_site, c)
            &&& plan_routing_complete(p, pv2)
            &&& forall|q: int|
                0 <= q < p.site_has_asset@.len() ==> pairs1.contains(
                    #[trigger] p.site_has_asset@[q],
                )
        }),
{
    let send_e = (having_site, InstrView::SendAssetTo { asset_id: a, site_id: compute_site });
    let acq_e = (compute_site, InstrView::AcquireAssetFrom { asset_id: a, site_id: having_site });
    let pv1 = pv0.push(send_e);
    let pv2 = pv1.push(acq_e);
    let pairs1 = pairs0.push((compute_site, a));
    lemma_plan_push(pv0, send_e);
    lemma_plan_push(pv1, acq_e);
    assert(acquire_route(acq_e) == send_route(send_e));
    assert(acquires_of(pv2) == sends_of(pv2));
    assert(computes_of(pv2) == done);
    let hi = choose|hi: int|
        {
            &&& 0 <= hi < pairs0.len()
            &&& #[trigger] pairs0[hi] == (having_site, a)
            &&& forall|j: int| 0 <= j < hi ==> pairs0[j].1 != a
        };
    assert(forall|j: int| 0 <= j < hi ==> pairs0[j].1 != pairs0[hi].1);
    let source_justified = p.site_has_asset@.contains(pairs0[hi]) || compute_outputs_at(
        pv0,
        having_site,
        a,
    );
    assert(source_justified);
    assert forall|kk: int| 0 <= kk < pv2.len() implies ((#[trigger] pv2[kk]).1 matches
    InstrView::ComputeAssetData(cc) ==> site_eligible(p, pv2[kk].0, cc)) by {
        if kk < pv0.len() {
            assert(pv2[kk] == pv0[kk]);
        }
    }
    assert forall|kk: int| 0 <= kk < pv2.len() implies ((#[trigger] pv2[kk]).1 matches
    InstrView::AcquireAssetFrom { asset_id, site_id } ==> !p.initially_has(pv2[kk].0, asset_id))
        by {
        if kk < pv0.len() {
            assert(pv2[kk] == pv0[kk]);
        } else if kk == pv0.len() + 1 {
            if p.initially_has(compute_site, a) {
                assert(pairs0.contains((compute_site, a)));
            }
        }
    }
    assert forall|kk: int| 0 <= kk < pv2.len() implies ((#[trigger] pv2[kk]).1 matches
    InstrView::AcquireAssetFrom { asset_id, site_id } ==> p.initially_has(site_id, asset_id)
        || compute_outputs_at(pv2, site_id, asset_id)) by {
        if kk < pv0.len() {
            assert(pv2[kk] == pv0[kk]);
            match pv0[kk].1 {
                InstrView::AcquireAssetFrom { asset_id, site_id } => {
                    if compute_outputs_at(pv0, site_id, asset_id) {
                        lemma_outputs_at_push(pv0, send_e, site_id, asset_id);
                        lemma_outputs_at_push(pv1, acq_e, site_id, asset_id);
                    }
                },
                _ => {},
            }
        } else if kk == pv0.len() + 1 {
            if compute_outputs_at(pv0, having_site, a) {
                lemma_outputs_at_push(pv0, send_e, having_site, a);
                lemma_outputs_at_push(pv1, acq_e, having_site, a);
            }
        }
    }
    assert forall|ii: int|
        0 <= ii < pairs1.len() && (forall|j: int| 0 <= j < ii ==> pairs1[j].1 != pairs1[ii].1)
        implies p.site_has_asset@.contains(#[trigger] pairs1[ii]) || compute_outputs_at(
        pv2,
        pairs1[ii].0,
        pairs1[ii].1,
    ) by {
        if ii < pairs0.len() {
            assert(pairs1[ii] == pairs0[ii]);
            assert forall|j: int| 0 <= j < ii implies pairs0[j].1 != pairs0[ii].1 by {
                assert(pairs1[j] == pairs0[j]);
            }
            if compute_outputs_at(pv0, pairs0[ii].0, pairs0[ii].1) {
                lemma_outputs_at_push(pv0, send_e, pairs0[ii].0, pairs0[ii].1);
                lemma_outputs_at_push(pv1, acq_e, pairs0[ii].0, pairs0[ii].1);
            }
        } else {
            assert(pairs1[hi].1 == a);
            assert(pairs1[ii].1 == a);
            assert(!(forall|j: int| 0 <= j < ii ==> pairs1[j].1 != pairs1[ii].1));
        }
    }
    assert forall|q: int| 0 <= q < p.site_has_asset@.len() implies pairs1.contains(
        #[trigger] p.site_has_asset@[q],
    ) by {
        lemma_contains_push(pairs0, (compute_site, a), p.site_has_asset@[q]);
    }
    assert(pv2[pv0.len() as int] == send_e);
    assert(pv2[pv0.len() as int + 1] == acq_e);
    assert forall|kk: int| 0 <= kk < pv2.len() implies ((#[trigger] pv2[kk]).1 matches
    InstrView::ComputeAssetData(cc) ==> forall|m: int|
        0 <= m < cc.needed().len() ==> {
            ||| p.initially_has(pv2[kk].0, #[trigger] cc.needed()[m])
            ||| compute_outputs_at(pv2, pv2[kk].0, cc.needed()[m])
            ||| plan_has_acquire(pv2, pv2[kk].0, cc.needed()[m])
        }) by {
        if kk < pv0.len() {
            assert(pv2[kk] == pv0[kk]);
            match pv0[kk].1 {
                InstrView::ComputeAssetData(cc) => {
                    assert forall|m: int| 0 <= m < cc.needed().len() implies {
                        ||| p.initially_has(pv2[kk].0, #[trigger] cc.needed()[m])
                        ||| compute_outputs_at(pv2, pv2[kk].0, cc.needed()[m])
                        ||| plan_has_acquire(pv2, pv2[kk].0, cc.needed()[m])
                    } by {
                        if compute_outputs_at(pv0, pv0[kk].0, cc.needed()[m]) {
                            lemma_outputs_at_push(pv0, send_e, pv0[kk].0, cc.needed()[m]);
                            lemma_outputs_at_push(pv1, acq_e, pv0[kk].0, cc.needed()[m]);
                        } else if plan_has_acquire(pv0, pv0[kk].0, cc.needed()[m]) {
                            lemma_has_acquire_push(pv0, send_e, pv0[kk].0, cc.needed()[m]);
                            lemma_has_acquire_push(pv1, acq_e, pv0[kk].0, cc.needed()[m]);
                        }
                    }
                },
                _ => {},
            }
        }
    }
    assert forall|kk: int| 0 <= kk < pv2.len() implies ((#[trigger] pv2[kk]).1 matches
    InstrView::AcquireAssetFrom { asset_id, site_id } ==> compute_needs_at(pv2, pv2[kk].0, asset_id)
        || (pv2[kk].0 == compute_site && c.needed().contains(asset_id))) by {
        if kk < pv0.len() {
            assert(pv2[kk] == pv0[kk]);
            match pv0[kk].1 {
                InstrView::AcquireAssetFrom { asset_id, site_id } => {
                    if compute_needs_at(pv0, pv0[kk].0, asset_id) {
                        lemma_needs_at_push(pv0, send_e, pv0[kk].0, asset_id);
                        lemma_needs_at_push(pv1, acq_e, pv0[kk].0, asset_id);
                    }
                },
                _ => {},
            }
        } else if kk == pv0.len() + 1 {
            assert(pv2[kk] == acq_e);
        }
    }
    assert forall|k1: int, k2: int|
        0 <= k1 < pv2.len() && 0 <= k2 < pv2.len() && k1 != k2 implies !((#[trigger] pv2[k1]).1
        matches InstrView::AcquireAssetFrom { asset_id: a1, site_id: s1 } && ((
    #[trigger] pv2[k2]).1 matches InstrView::AcquireAssetFrom { asset_id: a2, site_id: s2 }
        && pv2[k1].0 == pv2[k2].0 && a1 == a2)) by {
        if k1 < pv0.len() && k2 < pv0.len() {
            assert(pv2[k1] == pv0[k1] && pv2[k2] == pv0[k2]);
        } else {
            let ko = if k1 < pv0.len() {
                k1
            } else {
                k2
            };
            let kn = if k1 < pv0.len() {
                k2
            } else {
                k1
            };
            if ko < pv0.len() && kn == pv0.len() + 1 {
                assert(pv2[ko] == pv0[ko]);
                match pv0[ko].1 {
                    InstrView::AcquireAssetFrom { asset_id: ao, site_id: so } => {
                        if pv0[ko].0 == compute_site && ao == a {
                            assert(pairs0.contains((compute_site, a)));
                            assert(false);
                        }
                    },
                    _ => {},
                }
            }
        }
    }
    assert forall|kk: int| 0 <= kk < pv2.len() implies ((#[trigger] pv2[kk]).1 matches
    InstrView::AcquireAssetFrom { asset_id, site_id } ==> pairs1.contains((pv2[kk].0, asset_id)))
        by {
        if kk < pv0.len() {
            assert(pv2[kk] == pv0[kk]);
            match pv0[kk].1 {
                InstrView::AcquireAssetFrom { asset_id, site_id } => {
                    lemma_contains_push(pairs0, (compute_site, a), (pv0[kk].0, asset_id));
                },
                _ => {},
            }
        } else if kk == pv0.len() + 1 {
            assert(pairs1[pairs0.len() as int] == (compute_site, a));
            assert(pairs1.contains((compute_site, a)));
        }
    }
    assert forall|ii: int| 0 <= ii < pairs1.len() implies {
        ||| p.site_has_asset@.contains(#[trigger] pairs1[ii])
        ||| compute_outputs_at(pv2, pairs1[ii].0, pairs1[ii].1)
        ||| plan_has_acquire(pv2, pairs1[ii].0, pairs1[ii].1)
    } by {
        if ii < pairs0.len() {
            assert(pairs1[ii] == pairs0[ii]);
            if compute_outputs_at(pv0, pairs0[ii].0, pairs0[ii].1) {
                lemma_outputs_at_push(pv0, send_e, pairs0[ii].0, pairs0[ii].1);
                lemma_outputs_at_push(pv1, acq_e, pairs0[ii].0, pairs0[ii].1);
            } else if plan_has_acquire(pv0, pairs0[ii].0, pairs0[ii].1) {
                lemma_has_acquire_push(pv0, send_e, pairs0[ii].0, pairs0[ii].1);
                lemma_has_acquire_push(pv1, acq_e, pairs0[ii].0, pairs0[ii].1);
            }
        } else {
            assert(pairs1[ii] == (compute_site, a));
            assert((pv2[pv0.len() as int + 1]).0 == compute_site);
            assert(plan_has_acquire(pv2, compute_site, a));
        }
    }
}

/// The planner's invariants survive placing the computation itself.
proof fn lemma_compute_step(
    p: Problem,
    pv0: Seq<(SiteId, InstrView)>,
    done: Seq<ComputeArgsView>,
    pairs0: Seq<(SiteId, AssetId)>,
    compute_site: SiteId,
    c: ComputeArgsView,
)
    requires
        computes_of(pv0) == done,
        plan_computes_sound(p, pv0),
        plan_routes_paired(pv0),
        plan_no_needless_acquires(p, pv0),
        plan_sources_justified(p, pv0),
        first_holders_justified(p, pv0, pairs0),
        pairs_covered(p, pv0, pairs0),
        acquires_recorded(pv0, pairs0),
        plan_acquires_unique(pv0),
        plan_acquires_needed_or(pv0, compute_site, c),
        plan_routing_complete(p, pv0),
        forall|m: int|
            0 <= m < c.needed().len() ==> pairs0.contains(
                (compute_site, #[trigger] c.needed()[m]),
            ),
        site_eligible(p, compute_site, c),
    ensures
        ({
            let pv1 = pv0.push((compute_site, InstrView::ComputeAssetData(c)));
            &&& computes_of(pv1) == done.push(c)
            &&& plan_computes_sound(p, pv1)
            &&& plan_routes_paired(pv1)
            &&& plan_no_needless_acquires(p, pv1)
            &&& plan_sources_justified(p, pv1)
            &&& first_holders_justified(p, pv1, pairs0)
            &&& pairs_covered(p, pv1, pairs0)
            &&& acquires_recorded(pv1, pairs0)
            &&& plan_acquires_unique(pv1)
            &&& plan_acquires_needed(pv1)
            &&& plan_routing_complete(p, pv1)
            &&& (pv1[pv0.len() as int].0 == compute_site && pv1[pv0.len() as int].1
                == InstrView::ComputeAssetData(c))
        }),
{
    let comp_e = (compute_site, InstrView::ComputeAssetData(c));
    let pv1 = pv0.push(comp_e);
    lemma_plan_push(pv0, comp_e);
    assert forall|kk: int| 0 <= kk < pv1.len() implies ((#[trigger] pv1[kk]).1 matches
    InstrView::ComputeAssetData(cc) ==> site_eligible(p, pv1[kk].0, cc)) by {
        if kk < pv0.len() {
            assert(pv1[kk] == pv0[kk]);
        } else {
            assert(pv1[kk] == comp_e);
        }
    }
    assert forall|kk: int| 0 <= kk < pv1.len() implies ((#[trigger] pv1[kk]).1 matches
    InstrView::AcquireAssetFrom { asset_id, site_id } ==> !p.initially_has(pv1[kk].0, asset_id))
        by {
        if kk < pv0.len() {
            assert(pv1[kk] == pv0[kk]);
        }
    }
    assert forall|kk: int| 0 <= kk < pv1.len() implies ((#[trigger] pv1[kk]).1 matches
    InstrView::AcquireAssetFrom { asset_id, site_id } ==> p.initially_has(site_id, asset_id)
        || compute_outputs_at(pv1, site_id, asset_id)) by {
        if kk < pv0.len() {
            assert(pv1[kk] == pv0[kk]);
            match pv0[kk].1 {
                InstrView::AcquireAssetFrom { asset_id, site_id } => {
                    if compute_outputs_at(pv0, site_id, asset_id) {
                        lemma_outputs_at_push(pv0, comp_e, site_id, asset_id);
                    }
                },
                _ => {},
            }
        }
    }
    assert forall|ii: int|
        0 <= ii < pairs0.len() && (forall|j: int| 0 <= j < ii ==> pairs0[j].1 != pairs0[ii].1)
        implies p.site_has_asset@.contains(#[trigger] pairs0[ii]) || compute_outputs_at(
        pv1,
        pairs0[ii].0,
        pairs0[ii].1,
    ) by {
        if compute_outputs_at(pv0, pairs0[ii].0, pairs0[ii].1) {
            lemma_outputs_at_push(pv0, comp_e, pairs0[ii].0, pairs0[ii].1);
        }
    }
    assert forall|ii: int| 0 <= ii < pairs0.len() implies {
        ||| p.site_has_asset@.contains(#[trigger] pairs0[ii])
        ||| compute_outputs_at(pv1, pairs0[ii].0, pairs0[ii].1)
        ||| plan_has_acquire(pv1, pairs0[ii].0, pairs0[ii].1)
    } by {
        if compute_outputs_at(pv0, pairs0[ii].0, pairs0[ii].1) {
            lemma_outputs_at_push(pv0, comp_e, pairs0[ii].0, pairs0[ii].1);
        } else if plan_has_acquire(pv0, pairs0[ii].0, pairs0[ii].1) {
            lemma_has_acquire_push(pv0, comp_e, pairs0[ii].0, pairs0[ii].1);
        }
    }
    assert forall|kk: int| 0 <= kk < pv1.len() implies ((#[trigger] pv1[kk]).1 matches
    InstrView::AcquireAssetFrom { asset_id, site_id } ==> pairs0.contains((pv1[kk].0, asset_id)))
        by {
        if kk < pv0.len() {
            assert(pv1[kk] == pv0[kk]);
        }
    }
    assert forall|k1: int, k2: int|
        0 <= k1 < pv1.len() && 0 <= k2 < pv1.len() && k1 != k2 implies !((#[trigger] pv1[k1]).1
        matches InstrView::AcquireAssetFrom { asset_id: a1, site_id: s1 } && ((
    #[trigger] pv1[k2]).1 matches InstrView::AcquireAssetFrom { asset_id: a2, site_id: s2 }
        && pv1[k1].0 == pv1[k2].0 && a1 == a2)) by {
        if k1 < pv0.len() && k2 < pv0.len() {
            assert(pv1[k1] == pv0[k1] && pv1[k2] == pv0[k2]);
        }
    }
    assert forall|kk: int| 0 <= kk < pv1.len() implies ((#[trigger] pv1[kk]).1 matches
    InstrView::AcquireAssetFrom { asset_id, site_id } ==> compute_needs_at(
        pv1,
        pv1[kk].0,
        asset_id,
    )) by {
        if kk < pv0.len() {
            assert(pv1[kk] == pv0[kk]);
            match pv0[kk].1 {
                InstrView::AcquireAssetFrom { asset_id, site_id } => {
                    if compute_needs_at(pv0, pv0[kk].0, asset_id) {
                        lemma_needs_at_push(pv0, comp_e, pv0[kk].0, asset_id);
                    } else {
                        // the acquire waited for this computation, which now stands
                        // in the plan
                        assert(pv0[kk].0 == compute_site && c.needed().contains(asset_id));
                        assert((pv1[pv0.len() as int]).0 == compute_site);
                        assert(compute_needs_at(pv1, compute_site, asset_id));
                    }
                },
                _ => {},
            }
        }
    }
    assert forall|kk: int| 0 <= kk < pv1.len() implies ((#[trigger] pv1[kk]).1 matches
    InstrView::ComputeAssetData(cc) ==> forall|m: int|
        0 <= m < cc.needed().len() ==> {
            ||| p.initially_has(pv1[kk].0, #[trigger] cc.needed()[m])
            ||| compute_outputs_at(pv1, pv1[kk].0, cc.needed()[m])
            ||| plan_has_acquire(pv1, pv1[kk].0, cc.needed()[m])
        }) by {
        if kk < pv0.len() {
            assert(pv1[kk] == pv0[kk]);
            match pv0[kk].1 {
                InstrView::ComputeAssetData(cc) => {
                    assert forall|m: int| 0 <= m < cc.needed().len() implies {
                        ||| p.initially_has(pv1[kk].0, #[trigger] cc.needed()[m])
                        ||| compute_outputs_at(pv1, pv1[kk].0, cc.needed()[m])
                        ||| plan_has_acquire(pv1, pv1[kk].0, cc.needed()[m])
                    } by {
                        if compute_outputs_at(pv0, pv0[kk].0, cc.needed()[m]) {
                            lemma_outputs_at_push(pv0, comp_e, pv0[kk].0, cc.needed()[m]);
                        } else if plan_has_acquire(pv0, pv0[kk].0, cc.needed()[m]) {
                            lemma_has_acquire_push(pv0, comp_e, pv0[kk].0, cc.needed()[m]);
                        }
                    }
                },
                _ => {},
            }
        } else {
            // the newly placed computation: each needed asset is held at the
            // compute site, and every held pair is covered
            assert(pv1[kk] == comp_e);
            assert forall|m: int| 0 <= m < c.needed().len() implies {
                ||| p.initially_has(compute_site, #[trigger] c.needed()[m])
                ||| compute_outputs_at(pv1, compute_site, c.needed()[m])
                ||| plan_has_acquire(pv1, compute_site, c.needed()[m])
            } by {
                assert(pairs0.contains((compute_site, c.needed()[m])));
                let ii = choose|ii: int|
                    0 <= ii < pairs0.len() && pairs0[ii] == (compute_site, c.needed()[m]);
                if compute_outputs_at(pv0, pairs0[ii].0, pairs0[ii].1) {
                    lemma_outputs_at_push(pv0, comp_e, pairs0[ii].0, pairs0[ii].1);
                } else if plan_has_acquire(pv0, pairs0[ii].0, pairs0[ii].1) {
                    lemma_has_acquire_push(pv0, comp_e, pairs0[ii].0, pairs0[ii].1);
                }
            }
        }
    }
}

/// The planner's invariants survive recording one output of a placed
/// computation as held at its compute site.
proof fn lemma_output_step(
    p: Problem,
    pv: Seq<(SiteId, InstrView)>,
    pairs0: Seq<(SiteId, AssetId)>,
    compute_site: SiteId,
    c: ComputeArgsView,
    o: AssetId,
)
    requires
        first_holders_justified(p, pv, pairs0),
        pairs_covered(p, pv, pairs0),
        acquires_recorded(pv, pairs0),
        exists|kk: int|
            0 <= kk < pv.len() && (#[trigger] pv[kk]).0 == compute_site && pv[kk].1
                == InstrView::ComputeAssetData(c),
        c.outputs.contains(o),
        forall|q: int|
            0 <= q < p.site_has_asset@.len() ==> pairs0.contains(#[trigger] p.site_has_asset@[q]),
    ensures
        first_holders_justified(p, pv, pairs0.push((compute_site, o))),
        pairs_covered(p, pv, pairs0.push((compute_site, o))),
        acquires_recorded(pv, pairs0.push((compute_site, o))),
        forall|q: int|
            0 <= q < p.site_has_asset@.len() ==> pairs0.push((compute_site, o)).contains(
                #[trigger] p.site_has_asset@[q],
            ),
{
    let pairs1 = pairs0.push((compute_site, o));
    assert(compute_outputs_at(pv, compute_site, o));
    assert forall|ii: int|
        0 <= ii < pairs1.len() && (forall|j: int| 0 <= j < ii ==> pairs1[j].1 != pairs1[ii].1)
        implies p.site_has_asset@.contains(#[trigger] pairs1[ii]) || compute_outputs_at(
        pv,
        pairs1[ii].0,
        pairs1[ii].1,
    ) by {
        if ii < pairs0.len() {
            assert(pairs1[ii] == pairs0[ii]);
            assert forall|j: int| 0 <= j < ii implies pairs0[j].1 != pairs0[ii].1 by {
                assert(pairs1[j] == pairs0[j]);
            }
        } else {
            assert(pairs1[ii] == (compute_site, o));
        }
    }
    assert forall|q: int| 0 <= q < p.site_has_asset@.len() implies pairs1.contains(
        #[trigger] p.site_has_asset@[q],
    ) by {
        lemma_contains_push(pairs0, (compute_site, o), p.site_has_asset@[q]);
    }
    assert forall|ii: int| 0 <= ii < pairs1.len() implies {
        ||| p.site_has_asset@.contains(#[trigger] pairs1[ii])
        ||| compute_outputs_at(pv, pairs1[ii].0, pairs1[ii].1)
        ||| plan_has_acquire(pv, pairs1[ii].0, pairs1[ii].1)
    } by {
        if ii < pairs0.len() {
            assert(pairs1[ii] == pairs0[ii]);
        } else {
            assert(pairs1[ii] == (compute_site, o));
        }
    }
    assert forall|kk: int| 0 <= kk < pv.len() implies ((#[trigger] pv[kk]).1 matches
    InstrView::AcquireAssetFrom { asset_id, site_id } ==> pairs1.contains((pv[kk].0, asset_id)))
        by {
        match pv[kk].1 {
            InstrView::AcquireAssetFrom { asset_id, site_id } => {
                lemma_contains_push(pairs0, (compute_site, o), (pv[kk].0, asset_id));
            },
            _ => {},
        }
    }
}

proof fn lemma_schedule_push(avail0: Set<AssetId>, done: Seq<ComputeArgsView>, c: ComputeArgsView)
    requires
        schedule_ok(avail0, done),
        feasible_from(c, avail0.union(seq_outputs(done))),
    ensures
        schedule_ok(avail0, done.push(c)),
{
    let d1 = done.push(c);
    assert forall|j: int| 0 <= j < d1.len() implies feasible_from(
        #[trigger] d1[j],
        avail0.union(seq_outputs(d1.take(j))),
    ) by {
        if j < done.len() {
            assert(d1.take(j) =~= done.take(j));
            assert(d1[j] == done[j]);
        } else {
            assert(d1.take(j) =~= done);
            assert(d1[j] == c);
        }
    }
}

proof fn lemma_seq_outputs_push(done: Seq<ComputeArgsView>, c: ComputeArgsView)
    ensures
        seq_outputs(done.push(c)) =~= seq_outputs(done).union(compute_outputs_set(c)),
{
    let d1 = done.push(c);
    assert forall|a: AssetId|
        seq_outputs(d1).contains(a) <==> seq_outputs(done).union(compute_outputs_set(c)).contains(
            a,
        ) by {
        if seq_outputs(d1).contains(a) {
            let i = choose|i: int| 0 <= i < d1.len() && (#[trigger] d1[i]).outputs.contains(a);
            if i < done.len() {
                assert(done[i] == d1[i]);
                assert(seq_outputs(done).contains(a));
            } else {
                assert(compute_outputs_set(c).contains(a));
            }
        }
        if seq_outputs(done).contains(a) {
            let i = choose|i: int| 0 <= i < done.len() && (#[trigger] done[i]).outputs.contains(a);
            assert(d1[i] == done[i]);
            assert(seq_outputs(d1).contains(a));
        }
        if compute_outputs_set(c).contains(a) {
            assert((d1[done.len() as int]).outputs.contains(a));
            assert(seq_outputs(d1).contains(a));
        }
    }
}

proof fn lemma_partial_avail_step(
    base: Set<AssetId>,
    outsv: Seq<AssetId>,
    k2: int,
    o: AssetId,
    st0: SymbolicStore,
    st1: SymbolicStore,
)
    requires
        0 <= k2 < outsv.len(),
        outsv[k2] == o,
        forall|x: AssetId| #[trigger] st1.someone_holds(x) <==> (st0.someone_holds(x) || x == o),
        forall|x: AssetId|
            #[trigger] st0.someone_holds(x) <==> (base.contains(x) || (exists|m: int|
                0 <= m < k2 && outsv[m] == x)),
    ensures
        forall|x: AssetId|
            #[trigger] st1.someone_holds(x) <==> (base.contains(x) || (exists|m: int|
                0 <= m < k2 + 1 && outsv[m] == x)),
{
    assert forall|x: AssetId|
        #[trigger] st1.someone_holds(x) <==> (base.contains(x) || (exists|m: int|
            0 <= m < k2 + 1 && outsv[m] == x)) by {
        if x == o {
            assert(outsv[k2] == x);
        }
        if exists|m: int| 0 <= m < k2 + 1 && outsv[m] == x {
            let m = choose|m: int| 0 <= m < k2 + 1 && outsv[m] == x;
            if m < k2 {
                assert(exists|mm: int| 0 <= mm < k2 && outsv[mm] == x);
            } else {
                assert(x == o);
            }
        }
    }
}

proof fn lemma_partial_avail_done(
    avail0: Set<AssetId>,
    done0: Seq<ComputeArgsView>,
    c: ComputeArgsView,
    outsv: Seq<AssetId>,
    st: SymbolicStore,
)
    requires
        outsv == c.outputs,
        forall|x: AssetId|
            #[trigger] st.someone_holds(x) <==> (avail0.union(seq_outputs(done0)).contains(x) || (
            exists|m: int| 0 <= m < outsv.len() && outsv[m] == x)),
    ensures
        forall|x: AssetId|
            #[trigger] st.someone_holds(x) <==> avail0.union(
                seq_outputs(done0.push(c)),
            ).contains(x),
{
    lemma_seq_outputs_push(done0, c);
    assert forall|x: AssetId|
        #[trigger] st.someone_holds(x) <==> avail0.union(seq_outputs(done0.push(c))).contains(
            x,
        ) by {
        if exists|m: int| 0 <= m < outsv.len() && outsv[m] == x {
            assert(c.outputs.contains(x));
            assert(compute_outputs_set(c).contains(x));
        }
        if compute_outputs_set(c).contains(x) {
            let m = choose|m: int| 0 <= m < c.outputs.len() && c.outputs[m] == x;
            assert(outsv[m] == x);
        }
    }
}

/// Computation `u` depends on `v`: some input of `u` is an output of `v`.
pub open spec fn depends_on(u: ComputeArgsView, v: ComputeArgsView) -> bool {
    exists|a: AssetId| #[trigger] u.inputs.contains(a) && v.outputs.contains(a)
}

/// The dependency graph over the computations has a cycle: a nonempty
/// index sequence in which each computation depends on the next, and the
/// last depends on the first.
pub open spec fn has_cycle(cs: Seq<ComputeArgsView>) -> bool {
    exists|idxs: Seq<int>|
        {
            &&& idxs.len() >= 1
            &&& (forall|t: int| 0 <= t < idxs.len() ==> 0 <= #[trigger] idxs[t] < cs.len())
            &&& (forall|t: int|
                0 <= t < idxs.len() - 1 ==> depends_on(cs[#[trigger] idxs[t]], cs[idxs[t + 1]]))
            &&& #[trigger] depends_on(cs[idxs[idxs.len() - 1]], cs[idxs[0]])
        }
}

/// No two distinct requested computations output the same asset.
pub open spec fn producers_unique(cs: Seq<ComputeArgsView>) -> bool {
    forall|i: int, j: int, a: AssetId|
        0 <= i < cs.len() && 0 <= j < cs.len() && i != j && #[trigger] cs[i].outputs.contains(a)
            ==> !(#[trigger] cs[j].outputs.contains(a))
}

/// No computed asset is also initially present.
pub open spec fn outputs_fresh(avail0: Set<AssetId>, cs: Seq<ComputeArgsView>) -> bool {
    forall|i: int, a: AssetId|
        0 <= i < cs.len() && #[trigger] cs[i].outputs.contains(a) ==> !avail0.contains(a)
}

/// From a position of a cycle member in a schedule, its cycle successor
/// sits strictly earlier; following the cycle would descend forever, so no
/// valid schedule can contain a cycle member.
proof fn lemma_cycle_descend(
    avail0: Set<AssetId>,
    cs: Seq<ComputeArgsView>,
    order: Seq<ComputeArgsView>,
    idxs: Seq<int>,
    t: int,
    p: int,
)
    requires
        order.to_multiset() == cs.to_multiset(),
        producers_unique(cs),
        outputs_fresh(avail0, cs),
        idxs.len() >= 1,
        forall|tt: int| 0 <= tt < idxs.len() ==> 0 <= #[trigger] idxs[tt] < cs.len(),
        forall|tt: int|
            0 <= tt < idxs.len() - 1 ==> depends_on(cs[#[trigger] idxs[tt]], cs[idxs[tt + 1]]),
        depends_on(cs[idxs[idxs.len() - 1]], cs[idxs[0]]),
        0 <= t < idxs.len(),
        0 <= p < order.len(),
        order[p] == cs[idxs[t]],
    ensures
        !schedule_ok(avail0, order),
    decreases p,
{
    broadcast use vstd::seq_lib::group_to_multiset_ensures;

    if schedule_ok(avail0, order) {
        let u = cs[idxs[t]];
        let tn = if t == idxs.len() - 1 {
            0
        } else {
            t + 1
        };
        let v = cs[idxs[tn]];
        assert(depends_on(u, v));
        let a = choose|a: AssetId| #[trigger] u.inputs.contains(a) && v.outputs.contains(a);
        // `a` is among u's needed assets
        let ii = choose|ii: int| 0 <= ii < u.inputs.len() && u.inputs[ii] == a;
        assert(u.needed()[ii] == a);
        // the schedule makes u feasible at p, so `a` is available there
        assert(feasible_from(u, avail0.union(seq_outputs(order.take(p)))));
        assert(avail0.union(seq_outputs(order.take(p))).contains(a));
        // but `a` is computed, never initial
        assert(!avail0.contains(a));
        assert(seq_outputs(order.take(p)).contains(a));
        let q = choose|q: int|
            0 <= q < order.take(p).len() && (#[trigger] order.take(p)[q]).outputs.contains(a);
        assert(order[q] == order.take(p)[q]);
        assert(order[q].outputs.contains(a));
        // the producer of `a` in the schedule is v itself
        assert(order.contains(order[q]));
        assert(cs.to_multiset().count(order[q]) > 0);
        assert(cs.contains(order[q]));
        let iq = choose|iq: int| 0 <= iq < cs.len() && cs[iq] == order[q];
        if iq != idxs[tn] {
            assert(cs[iq].outputs.contains(a));
            assert(cs[idxs[tn]].outputs.contains(a));
            assert(false);
        }
        assert(order[q] == v);
        lemma_cycle_descend(avail0, cs, order, idxs, tn, q);
    }
}

/// A dependency cycle makes the computations unschedulable, provided no
/// output is also held initially and no two computations output the same
/// asset (with an initially-present or doubly-produced input, the planner
/// may legitimately complete the cycle by another route).
pub proof fn lemma_cycle_implies_unschedulable(avail0: Set<AssetId>, cs: Seq<ComputeArgsView>)
    requires
        has_cycle(cs),
        producers_unique(cs),
        outputs_fresh(avail0, cs),
    ensures
        !schedulable(avail0, cs),
{
    broadcast use vstd::seq_lib::group_to_multiset_ensures;

    if schedulable(avail0, cs) {
        let order = choose|order: Seq<ComputeArgsView>|
            order.to_multiset() == cs.to_multiset() && #[trigger] schedule_ok(avail0, order);
        let idxs = choose|idxs: Seq<int>|
            {
                &&& idxs.len() >= 1
                &&& (forall|t: int| 0 <= t < idxs.len() ==> 0 <= #[trigger] idxs[t] < cs.len())
                &&& (forall|t: int|
                    0 <= t < idxs.len() - 1 ==> depends_on(cs[#[trigger] idxs[t]], cs[idxs[t + 1]]))
                &&& #[trigger] depends_on(cs[idxs[idxs.len() - 1]], cs[idxs[0]])
            };
        // the first cycle member occurs somewhere in the schedule
        assert(cs.contains(cs[idxs[0]]));
        assert(order.to_multiset().count(cs[idxs[0]]) > 0);
        assert(order.contains(cs[idxs[0]]));
        let p = choose|p: int| 0 <= p < order.len() && order[p] == cs[idxs[0]];
        lemma_cycle_descend(avail0, cs, order, idxs, 0, p);
    }
}

/// Every input is either initially present or output by some computation.
pub open spec fn inputs_covered(avail0: Set<AssetId>, cs: Seq<ComputeArgsView>) -> bool {
    forall|i: int, a: AssetId|
        0 <= i < cs.len() && #[trigger] cs[i].inputs.contains(a) ==> avail0.contains(a) || exists|
            j: int,
        | 0 <= j < cs.len() && (#[trigger] cs[j]).outputs.contains(a)
}

/// Every program asset is initially present.
pub open spec fn programs_available(avail0: Set<AssetId>, cs: Seq<ComputeArgsView>) -> bool {
    forall|i: int| 0 <= i < cs.len() ==> avail0.contains((#[trigger] cs[i]).compute_asset)
}

#[verifier::rlimit(60)]
proof fn lemma_pigeonhole(w: Seq<int>, n: int)
    requires
        n >= 0,
        w.len() > n,
        forall|t: int| 0 <= t < w.len() ==> 0 <= #[trigger] w[t] < n,
    ensures
        exists|p: int, q: int| 0 <= p < q < w.len() && w[p] == w[q],
{
    if !(exists|p: int, q: int| 0 <= p < q < w.len() && w[p] == w[q]) {
        assert forall|p: int, q: int| 0 <= p < w.len() && 0 <= q < w.len() && p != q implies w[p]
            != w[q] by {
            if p < q && w[p] == w[q] {
                assert(exists|p2: int, q2: int| 0 <= p2 < q2 < w.len() && w[p2] == w[q2]);
            }
            if q < p && w[p] == w[q] {
                assert(exists|p2: int, q2: int| 0 <= p2 < q2 < w.len() && w[p2] == w[q2]);
            }
        }
        assert(w.no_duplicates());
        w.unique_seq_to_set();
        assert(w.to_set().subset_of(vstd::set_lib::set_int_range(0, n))) by {
            assert forall|x: int| w.to_set().contains(x) implies vstd::set_lib::set_int_range(
                0,
                n,
            ).contains(x) by {
                assert(w.contains(x));
            }
        }
        vstd::set_lib::lemma_int_range(0, n);
        vstd::set_lib::lemma_len_subset(w.to_set(), vstd::set_lib::set_int_range(0, n));
        assert(w.to_set().len() <= n);
        assert(false);
    }
}

/// Computation `i` still waits for an input that is not initially present.
spec fn waits_for_input(avail0: Set<AssetId>, cs: Seq<ComputeArgsView>, i: int) -> bool {
    exists|a: AssetId| #[trigger] cs[i].inputs.contains(a) && !avail0.contains(a)
}

/// Position `j` is a dependency target of position `i`.
spec fn dep_edge(cs: Seq<ComputeArgsView>, i: int, j: int) -> bool {
    0 <= j < cs.len() && depends_on(cs[i], cs[j])
}

/// Position `i` depends on some position.
spec fn has_edge(cs: Seq<ComputeArgsView>, i: int) -> bool {
    exists|j: int| #[trigger] dep_edge(cs, i, j)
}

/// Every computation depends on some computation in the list.
spec fn all_have_successor(cs: Seq<ComputeArgsView>) -> bool {
    forall|i: int| 0 <= i < cs.len() ==> #[trigger] has_edge(cs, i)
}

/// A walk along dependency edges, one step per unit of fuel.
#[verifier::rlimit(60)]
proof fn build_walk(cs: Seq<ComputeArgsView>, start: int, fuel: nat) -> (w: Seq<int>)
    requires
        0 <= start < cs.len(),
        all_have_successor(cs),
    ensures
        w.len() == fuel + 1,
        w[0] == start,
        forall|t: int| 0 <= t < w.len() ==> 0 <= #[trigger] w[t] < cs.len(),
        forall|t: int| 0 <= t < w.len() - 1 ==> depends_on(cs[#[trigger] w[t]], cs[w[t + 1]]),
    decreases fuel,
{
    if fuel == 0 {
        let w = seq![start];
        assert(w[0] == start);
        w
    } else {
        assert(has_edge(cs, start));
        let j = choose|j: int| #[trigger] dep_edge(cs, start, j);
        assert(0 <= j < cs.len() && depends_on(cs[start], cs[j]));
        let rest = build_walk(cs, j, (fuel - 1) as nat);
        let w = seq![start] + rest;
        assert(w[0] == start);
        assert forall|t: int| 0 <= t < w.len() - 1 implies depends_on(
            cs[#[trigger] w[t]],
            cs[w[t + 1]],
        ) by {
            if t == 0 {
                assert(w[0] == start && w[1] == rest[0] && rest[0] == j);
            } else {
                assert(w[t] == rest[t - 1] && w[t + 1] == rest[t]);
            }
        }
        w
    }
}

/// A repeated vertex on a dependency walk closes a cycle.
proof fn lemma_walk_cycle(cs: Seq<ComputeArgsView>, w: Seq<int>, p: int, q: int)
    requires
        0 <= p < q < w.len(),
        w[p] == w[q],
        forall|t: int| 0 <= t < w.len() ==> 0 <= #[trigger] w[t] < cs.len(),
        forall|t: int| 0 <= t < w.len() - 1 ==> depends_on(cs[#[trigger] w[t]], cs[w[t + 1]]),
    ensures
        has_cycle(cs),
{
    let idxs = w.subrange(p, q);
    assert(idxs.len() == q - p >= 1);
    assert forall|t: int| 0 <= t < idxs.len() implies 0 <= #[trigger] idxs[t] < cs.len() by {
        assert(idxs[t] == w[p + t]);
    }
    assert forall|t: int| 0 <= t < idxs.len() - 1 implies depends_on(
        cs[#[trigger] idxs[t]],
        cs[idxs[t + 1]],
    ) by {
        assert(idxs[t] == w[p + t] && idxs[t + 1] == w[p + t + 1]);
    }
    assert(idxs[idxs.len() - 1] == w[q - 1] && idxs[0] == w[p]);
    assert(depends_on(cs[w[q - 1]], cs[w[q]]));
    assert(depends_on(cs[idxs[idxs.len() - 1]], cs[idxs[0]]));
}

/// If every computation still waits for a missing input, the dependency
/// graph has a cycle.
proof fn lemma_no_ready_has_cycle(avail0: Set<AssetId>, cs: Seq<ComputeArgsView>)
    requires
        cs.len() > 0,
        inputs_covered(avail0, cs),
        forall|i: int| 0 <= i < cs.len() ==> #[trigger] waits_for_input(avail0, cs, i),
    ensures
        has_cycle(cs),
{
    assert forall|i: int| 0 <= i < cs.len() implies #[trigger] has_edge(cs, i) by {
        assert(waits_for_input(avail0, cs, i));
        let a = choose|a: AssetId| #[trigger] cs[i].inputs.contains(a) && !avail0.contains(a);
        assert(cs[i].inputs.contains(a));
        let j = choose|j: int| 0 <= j < cs.len() && (#[trigger] cs[j]).outputs.contains(a);
        assert(depends_on(cs[i], cs[j]));
        assert(dep_edge(cs, i, j));
    }
    assert(all_have_successor(cs));
    let w = build_walk(cs, 0, cs.len() as nat);
    lemma_pigeonhole(w, cs.len() as int);
    let (p, q) = choose|p: int, q: int| 0 <= p < q < w.len() && w[p] == w[q];
    lemma_walk_cycle(cs, w, p, q);
}

proof fn lemma_schedule_cons(avail0: Set<AssetId>, c: ComputeArgsView, t: Seq<ComputeArgsView>)
    requires
        feasible_from(c, avail0),
        schedule_ok(avail0.union(compute_outputs_set(c)), t),
    ensures
        schedule_ok(avail0, seq![c] + t),
{
    let order = seq![c] + t;
    let avail1 = avail0.union(compute_outputs_set(c));
    assert forall|j: int| 0 <= j < order.len() implies feasible_from(
        #[trigger] order[j],
        avail0.union(seq_outputs(order.take(j))),
    ) by {
        if j == 0 {
            assert(order[0] == c);
            assert forall|k: int| 0 <= k < c.needed().len() implies avail0.union(
                seq_outputs(order.take(0)),
            ).contains(#[trigger] c.needed()[k]) by {
                assert(avail0.contains(c.needed()[k]));
            }
        } else {
            assert(order[j] == t[j - 1]);
            assert(feasible_from(t[j - 1], avail1.union(seq_outputs(t.take(j - 1)))));
            assert forall|a: AssetId|
                avail1.union(seq_outputs(t.take(j - 1))).contains(a) implies avail0.union(
                seq_outputs(order.take(j)),
            ).contains(a) by {
                if compute_outputs_set(c).contains(a) {
                    assert(order.take(j)[0] == c);
                    assert((order.take(j)[0]).outputs.contains(a));
                    assert(seq_outputs(order.take(j)).contains(a));
                } else if seq_outputs(t.take(j - 1)).contains(a) {
                    let ii = choose|ii: int|
                        0 <= ii < t.take(j - 1).len() && (#[trigger] t.take(j - 1)[ii]).outputs
                            .contains(a);
                    assert(order.take(j)[ii + 1] == t[ii]);
                    assert((order.take(j)[ii + 1]).outputs.contains(a));
                    assert(seq_outputs(order.take(j)).contains(a));
                }
            }
            assert forall|k: int| 0 <= k < (t[j - 1]).needed().len() implies avail0.union(
                seq_outputs(order.take(j)),
            ).contains(#[trigger] (t[j - 1]).needed()[k]) by {
                assert(avail1.union(seq_outputs(t.take(j - 1))).contains((t[j - 1]).needed()[k]));
            }
        }
    }
}

/// A cycle found after deleting one computation was already there.
proof fn lemma_cycle_in_remove(cs: Seq<ComputeArgsView>, i: int)
    requires
        0 <= i < cs.len(),
        has_cycle(cs.remove(i)),
    ensures
        has_cycle(cs),
{
    let cs1 = cs.remove(i);
    let idxs1 = choose|idxs: Seq<int>|
        {
            &&& idxs.len() >= 1
            &&& (forall|t: int| 0 <= t < idxs.len() ==> 0 <= #[trigger] idxs[t] < cs1.len())
            &&& (forall|t: int|
                0 <= t < idxs.len() - 1 ==> depends_on(cs1[#[trigger] idxs[t]], cs1[idxs[t + 1]]))
            &&& #[trigger] depends_on(cs1[idxs[idxs.len() - 1]], cs1[idxs[0]])
        };
    let f = |x: int|
        if x < i {
            x
        } else {
            x + 1
        };
    let idxs = idxs1.map_values(f);
    assert forall|t: int| 0 <= t < idxs.len() implies 0 <= #[trigger] idxs[t] < cs.len() && cs[
        idxs[t]
    ] == cs1[idxs1[t]] by {
        assert(idxs[t] == f(idxs1[t]));
    }
    assert forall|t: int| 0 <= t < idxs.len() - 1 implies depends_on(
        cs[#[trigger] idxs[t]],
        cs[idxs[t + 1]],
    ) by {
        assert(cs[idxs[t]] == cs1[idxs1[t]] && cs[idxs[t + 1]] == cs1[idxs1[t + 1]]);
    }
    assert(cs[idxs[idxs.len() - 1]] == cs1[idxs1[idxs1.len() - 1]] && cs[idxs[0]] == cs1[idxs1[0]]);
    assert(depends_on(cs[idxs[idxs.len() - 1]], cs[idxs[0]]));
    assert(idxs.len() >= 1);
}

/// Completeness of cycle detection: an acyclic dependency graph admits a
/// processing order, provided every input is initially present or produced
/// by some computation, every program asset is initially present, no output
/// is also initial, and no two computations output the same asset.
pub proof fn lemma_acyclic_schedulable(avail0: Set<AssetId>, cs: Seq<ComputeArgsView>)
    requires
        !has_cycle(cs),
        inputs_covered(avail0, cs),
        programs_available(avail0, cs),
        outputs_fresh(avail0, cs),
        producers_unique(cs),
    ensures
        schedulable(avail0, cs),
    decreases cs.len(),
{
    broadcast use vstd::seq_lib::group_to_multiset_ensures;

    if cs.len() == 0 {
        let order = Seq::<ComputeArgsView>::empty();
        assert(order.to_multiset() =~= cs.to_multiset());
        assert(schedule_ok(avail0, order));
    } else {
        if forall|i: int| 0 <= i < cs.len() ==> #[trigger] waits_for_input(avail0, cs, i) {
            lemma_no_ready_has_cycle(avail0, cs);
            assert(false);
        }
        let i = choose|i: int| 0 <= i < cs.len() && !(#[trigger] waits_for_input(avail0, cs, i));
        let c = cs[i];
        assert(feasible_from(c, avail0)) by {
            assert forall|k: int| 0 <= k < c.needed().len() implies avail0.contains(
                #[trigger] c.needed()[k],
            ) by {
                if k < c.inputs.len() {
                    assert(c.needed()[k] == c.inputs[k]);
                    assert(c.inputs.contains(c.inputs[k]));
                    if !avail0.contains(c.inputs[k]) {
                        assert(waits_for_input(avail0, cs, i));
                    }
                } else {
                    assert(c.needed()[k] == c.compute_asset);
                }
            }
        }
        let cs1 = cs.remove(i);
        let avail1 = avail0.union(compute_outputs_set(c));
        assert forall|t: int| 0 <= t < cs1.len() implies #[trigger] cs1[t] == cs[
            if t < i {
                t
            } else {
                t + 1
            }
        ] by {}
        // the deleted computation's slot maps indices, preserving all side
        // conditions for the remainder
        assert(!has_cycle(cs1)) by {
            if has_cycle(cs1) {
                lemma_cycle_in_remove(cs, i);
            }
        }
        assert(inputs_covered(avail1, cs1)) by {
            assert forall|t: int, a: AssetId|
                0 <= t < cs1.len() && #[trigger] cs1[t].inputs.contains(a) implies avail1.contains(
                a,
            ) || exists|j: int| 0 <= j < cs1.len() && (#[trigger] cs1[j]).outputs.contains(a) by {
                let tt = if t < i {
                    t
                } else {
                    t + 1
                };
                assert(cs[tt].inputs.contains(a));
                if !avail0.contains(a) {
                    let j = choose|j: int|
                        0 <= j < cs.len() && (#[trigger] cs[j]).outputs.contains(a);
                    if j == i {
                        assert(compute_outputs_set(c).contains(a));
                    } else {
                        let jj = if j < i {
                            j
                        } else {
                            j - 1
                        };
                        assert(cs1[jj] == cs[j]);
                        assert((cs1[jj]).outputs.contains(a));
                    }
                }
            }
        }
        assert(programs_available(avail1, cs1)) by {
            assert forall|t: int| 0 <= t < cs1.len() implies avail1.contains(
                (#[trigger] cs1[t]).compute_asset,
            ) by {
                let tt = if t < i {
                    t
                } else {
                    t + 1
                };
                assert(cs1[t] == cs[tt]);
            }
        }
        assert(outputs_fresh(avail1, cs1)) by {
            assert forall|t: int, a: AssetId|
                0 <= t < cs1.len() && #[trigger] cs1[t].outputs.contains(a) implies !avail1
                .contains(a) by {
                let tt = if t < i {
                    t
                } else {
                    t + 1
                };
                assert(cs[tt].outputs.contains(a));
                assert(!avail0.contains(a));
                if compute_outputs_set(c).contains(a) {
                    assert(cs[i].outputs.contains(a));
                    assert(tt != i);
                    assert(false);
                }
            }
        }
        assert(producers_unique(cs1)) by {
            assert forall|t1: int, t2: int, a: AssetId|
                0 <= t1 < cs1.len() && 0 <= t2 < cs1.len() && t1 != t2 && #[trigger] cs1[t1].outputs
                    .contains(a) implies !(#[trigger] cs1[t2].outputs.contains(a)) by {
                let u1 = if t1 < i {
                    t1
                } else {
                    t1 + 1
                };
                let u2 = if t2 < i {
                    t2
                } else {
                    t2 + 1
                };
                assert(cs1[t1] == cs[u1] && cs1[t2] == cs[u2]);
                assert(u1 != u2);
            }
        }
        lemma_acyclic_schedulable(avail1, cs1);
        let order1 = choose|o: Seq<ComputeArgsView>|
            o.to_multiset() == cs1.to_multiset() && #[trigger] schedule_ok(avail1, o);
        let order = seq![c] + order1;
        vstd::seq_lib::lemma_multiset_commutative(seq![c], order1);
        assert(seq![c].to_multiset() =~= vstd::multiset::Multiset::<ComputeArgsView>::empty().insert(c)) by {
            assert(seq![c] =~= Seq::<ComputeArgsView>::empty().push(c));
        }
        assert(cs1.to_multiset() =~= cs.to_multiset().remove(c));
        assert(order.to_multiset() =~= cs.to_multiset());
        lemma_schedule_cons(avail0, c, order1);
        assert(schedule_ok(avail0, order));
    }
}

/// `c` is reached by the symbolic execution: after some valid processing
/// prefix `done` of the other requested computations, `c` is among the ones
/// that remain and every asset it needs is available. This rules the
/// no-eligible-site diagnostic out of problems whose symbolic execution
/// stalls before ever reaching the named computation.
pub open spec fn reachable_compute(p: Problem, c: ComputeArgsView) -> bool {
    exists|done: Seq<ComputeArgsView>, rest: vstd::multiset::Multiset<ComputeArgsView>|
        {
            &&& schedule_ok(p.initial_assets(), done)
            &&& #[trigger] done.to_multiset().insert(c).add(rest) == p.computes().to_multiset()
            &&& feasible_from(c, p.initial_assets().union(seq_outputs(done)))
        }
}

/// Everything the planner promises of its result.
///
/// On success the plan places each requested computation exactly once, at a
/// site the policy permits (plan soundness); routes every asset a placed
/// computation needs to its site unless it is already there (routing
/// completeness), acquiring each such asset there exactly once and nowhere
/// without need; pairs every acquire with a send from a source that holds
/// the asset (routing dual); never acquires an asset where it already was
/// (no needless work); and the requested computations admit a processing
/// order. `NoSiteForCompute` names a requested computation that the
/// symbolic execution reached and that no site may run; `CyclicCausality`
/// comes only when no processing order of the requested computations
/// exists.
pub open spec fn plan_post(p: Problem, r: Result<Plan, PlanError>) -> bool {
    match r {
        Ok(plan) => {
            &&& plan_computes_sound(p, plan@)
            &&& computes_of(plan@).to_multiset() == p.computes().to_multiset()
            &&& plan_routes_paired(plan@)
            &&& plan_sources_justified(p, plan@)
            &&& plan_no_needless_acquires(p, plan@)
            &&& plan_routing_complete(p, plan@)
            &&& plan_acquires_needed(plan@)
            &&& plan_acquires_unique(plan@)
            &&& schedulable(p.initial_assets(), p.computes())
        },
        Err(PlanError::NoSiteForCompute(c)) => {
            &&& p.computes().to_multiset().contains(c@)
            &&& forall|s: SiteId| !site_eligible(p, s, c@)
            &&& reachable_compute(p, c@)
        },
        Err(PlanError::CyclicCausality(c)) => {
            &&& p.computes().to_multiset().contains(c@)
            &&& !schedulable(p.initial_assets(), p.computes())
        },
    }
}

/// Some site is eligible to run `c`.
pub open spec fn some_site_eligible(p: Problem, c: ComputeArgsView) -> bool {
    exists|s: SiteId| site_eligible(p, s, c)
}

/// Cycle detection, as the planner's callers see it: when every requested
/// computation has at least one eligible site, the planner answers
/// `CyclicCausality` exactly when the computations admit no processing
/// order — that is, exactly when the dependency graph over `do_compute`
/// has a cycle of computations waiting on each other's outputs (or an input
/// that nobody holds or produces).
pub proof fn lemma_cycle_detection(p: Problem, r: Result<Plan, PlanError>)
    requires
        plan_post(p, r),
        forall|i: int|
            0 <= i < p.computes().len() ==> #[trigger] some_site_eligible(p, p.computes()[i]),
    ensures
        (r matches Err(e) && e matches PlanError::CyclicCausality(_)) <==> !schedulable(
            p.initial_assets(),
            p.computes(),
        ),
{
    broadcast use vstd::seq_lib::group_to_multiset_ensures;

    match r {
        Ok(_) => {},
        Err(PlanError::CyclicCausality(_)) => {},
        Err(PlanError::NoSiteForCompute(c)) => {
            assert(p.computes().to_multiset().count(c@) > 0);
            assert(p.computes().contains(c@));
            let i = choose|i: int| 0 <= i < p.computes().len() && p.computes()[i] == c@;
            assert(some_site_eligible(p, p.computes()[i]));
            let s = choose|s: SiteId| site_eligible(p, s, p.computes()[i]);
            assert(false);
        },
    }
}

/// Cycle detection against the dependency graph itself: when every
/// computation has an eligible site, every input is initially present or
/// produced by exactly one computation, program assets are initially
/// present, and no output is also initial, the planner answers
/// `CyclicCausality` exactly when the dependency graph over `do_compute`
/// has a cycle. (Without these conditions the two sides can part ways: an
/// input both initially present and produced lets the planner complete a
/// cyclic graph, and an input nobody holds or produces stalls an acyclic
/// one.)
pub proof fn lemma_cycle_detection_graph(p: Problem, r: Result<Plan, PlanError>)
    requires
        plan_post(p, r),
        forall|i: int|
            0 <= i < p.computes().len() ==> #[trigger] some_site_eligible(p, p.computes()[i]),
        inputs_covered(p.initial_assets(), p.computes()),
        programs_available(p.initial_assets(), p.computes()),
        outputs_fresh(p.initial_assets(), p.computes()),
        producers_unique(p.computes()),
    ensures
        (r matches Err(e) && e matches PlanError::CyclicCausality(_)) <==> has_cycle(p.computes()),
{
    lemma_cycle_detection(p, r);
    if has_cycle(p.computes()) {
        lemma_cycle_implies_unschedulable(p.initial_assets(), p.computes());
    } else {
        lemma_acyclic_schedulable(p.initial_assets(), p.computes());
    }
}

/// Compute a plan for the given problem: an instruction placement per
/// routing step and computation, or a diagnostic naming an infeasible
/// computation. The contract is `plan_post`.
///
/// The planner mints no fresh asset ids: every id it places comes from the
/// problem itself, so the id allocator (`crate::ids::AssetIdAllocator`)
/// remains a separate collaborator of the caller.
#[verifier::rlimit(60)]
pub fn plan(problem: &Problem) -> (r: Result<Plan, PlanError>)
    ensures
        plan_post(*problem, r),
{
    let mut plan = Plan::new();
    let mut symbolic_store = SymbolicStore::with_assets(&problem.site_has_asset);
    let mut symbolic_progress = SymbolicProgress::with_compute_to_do(&problem.do_compute);
    let ghost mut done: Seq<ComputeArgsView> = Seq::empty();
    let ghost avail0 = problem.initial_assets();
    proof {
        assert(done.to_multiset().add(symbolic_progress@.to_multiset()) =~= problem.computes()
            .to_multiset());
        assert(computes_of(plan@) =~= done);
        assert(acquires_of(plan@) =~= sends_of(plan@));
        assert forall|x: AssetId|
            #[trigger] symbolic_store.someone_holds(x) <==> avail0.union(
                seq_outputs(done),
            ).contains(x) by {
            assert(!seq_outputs(done).contains(x));
        }
        assert forall|i: int| 0 <= i < symbolic_store.pairs().len() implies problem.site_has_asset@
            .contains(#[trigger] symbolic_store.pairs()[i]) by {
            assert(symbolic_store.pairs()[i] == problem.site_has_asset@[i]);
        }
    }
    loop
        invariant
            symbolic_store.wf(),
            forall|q: int|
                0 <= q < problem.site_has_asset@.len() ==> symbolic_store.pairs().contains(
                    #[trigger] problem.site_has_asset@[q],
                ),
            done.to_multiset().add(symbolic_progress@.to_multiset()) == problem.computes()
                .to_multiset(),
            computes_of(plan@) == done,
            plan_computes_sound(*problem, plan@),
            plan_routes_paired(plan@),
            plan_no_needless_acquires(*problem, plan@),
            plan_sources_justified(*problem, plan@),
            first_holders_justified(*problem, plan@, symbolic_store.pairs()),
            pairs_covered(*problem, plan@, symbolic_store.pairs()),
            acquires_recorded(plan@, symbolic_store.pairs()),
            plan_routing_complete(*problem, plan@),
            plan_acquires_needed(plan@),
            plan_acquires_unique(plan@),
            avail0 == problem.initial_assets(),
            forall|x: AssetId|
                #[trigger] symbolic_store.someone_holds(x) <==> avail0.union(
                    seq_outputs(done),
                ).contains(x),
            schedule_ok(avail0, done),
        decreases symbolic_progress@.len(),
    {
        let ghost progress_pre = symbolic_progress@;
        match symbolic_progress.take_feasible_compute(&symbolic_store) {
            Err(rem) => {
                match rem {
                    None => {
                        proof {
                            assert(symbolic_progress@.to_multiset().len() == 0);
                            assert(done.to_multiset().add(symbolic_progress@.to_multiset())
                                =~= done.to_multiset());
                            assert(done.to_multiset() == problem.computes().to_multiset());
                            assert(schedule_ok(avail0, done));
                            assert(schedulable(avail0, problem.computes()));
                        }
                        return Ok(plan);
                    },
                    Some(c) => {
                        proof {
                            assert(progress_pre.to_multiset().count(c@) >= 1);
                            assert(problem.computes().to_multiset().count(c@) >= 1);
                            let g = avail0.union(seq_outputs(done));
                            assert forall|i: int| 0 <= i < progress_pre.len() implies
                                !feasible_from(#[trigger] progress_pre[i], g) by {
                                let cc = progress_pre[i];
                                assert(!compute_feasible(symbolic_store, cc));
                                if feasible_from(cc, g) {
                                    assert forall|k: int|
                                        0 <= k < cc.needed().len() implies symbolic_store
                                        .someone_holds(#[trigger] cc.needed()[k]) by {
                                        assert(g.contains(cc.needed()[k]));
                                    }
                                    assert(compute_feasible(symbolic_store, cc));
                                }
                            }
                            if schedulable(avail0, problem.computes()) {
                                let order = choose|order: Seq<ComputeArgsView>|
                                    order.to_multiset() == problem.computes().to_multiset()
                                        && #[trigger] schedule_ok(avail0, order);
                                assert(order.to_multiset() == done.to_multiset().add(
                                    progress_pre.to_multiset(),
                                ));
                                lemma_stuck_unschedulable(avail0, done, progress_pre, order);
                                assert(progress_pre.len() == 0);
                                assert(false);
                            }
                        }
                        return Err(PlanError::CyclicCausality(c));
                    },
                }
            },
            Ok(next_compute) => {
                let ghost c = next_compute@;
                proof {
                    let i = choose|i: int|
                        {
                            &&& 0 <= i < progress_pre.len()
                            &&& c == progress_pre[i]
                            &&& #[trigger] compute_feasible(symbolic_store, progress_pre[i])
                            &&& forall|j: int|
                                0 <= j < i ==> !compute_feasible(symbolic_store, progress_pre[j])
                            &&& symbolic_progress@ == progress_pre.remove(i)
                        };
                    assert(progress_pre.to_multiset().count(c) >= 1);
                    assert(symbolic_progress@.to_multiset() =~= progress_pre.to_multiset().remove(
                        c,
                    ));
                    assert(done.to_multiset().insert(c).add(symbolic_progress@.to_multiset())
                        =~= done.to_multiset().add(progress_pre.to_multiset()));
                }
                let compute_site = match site_for_compute(problem, &next_compute) {
                    Some(s) => s,
                    None => {
                        proof {
                            assert(problem.computes().to_multiset().count(c) >= 1);
                            let rest = symbolic_progress@.to_multiset();
                            assert(done.to_multiset().insert(c).add(rest) == problem.computes()
                                .to_multiset());
                            assert(feasible_from(c, avail0.union(seq_outputs(done)))) by {
                                assert forall|kk: int|
                                    0 <= kk < c.needed().len() implies avail0.union(
                                    seq_outputs(done),
                                ).contains(#[trigger] c.needed()[kk]) by {
                                    assert(symbolic_store.someone_holds(c.needed()[kk]));
                                }
                            }
                            assert(reachable_compute(*problem, c));
                        }
                        return Err(PlanError::NoSiteForCompute(next_compute));
                    },
                };
                let needed = next_compute.needed_assets();
                let mut k: usize = 0;
                proof {
                    assert forall|kk: int|
                        0 <= kk < plan@.len() implies ((#[trigger] plan@[kk]).1 matches
                    InstrView::AcquireAssetFrom { asset_id, site_id } ==> compute_needs_at(
                        plan@,
                        plan@[kk].0,
                        asset_id,
                    ) || (plan@[kk].0 == compute_site && c.needed().contains(asset_id))) by {}
                    assert(plan_acquires_needed_or(plan@, compute_site, c));
                }
                while k < needed.len()
                    invariant
                        0 <= k <= needed@.len(),
                        needed@ == c.needed(),
                        symbolic_store.wf(),
                        site_eligible(*problem, compute_site, c),
                        forall|m: int|
                            0 <= m < needed@.len() ==> symbolic_store.someone_holds(
                                #[trigger] needed@[m],
                            ),
                        forall|m: int|
                            0 <= m < k ==> symbolic_store.pairs().contains(
                                (compute_site, #[trigger] needed@[m]),
                            ),
                        forall|q: int|
                            0 <= q < problem.site_has_asset@.len() ==> symbolic_store.pairs()
                                .contains(#[trigger] problem.site_has_asset@[q]),
                        done.to_multiset().insert(c).add(symbolic_progress@.to_multiset())
                            == problem.computes().to_multiset(),
                        computes_of(plan@) == done,
                        plan_computes_sound(*problem, plan@),
                        plan_routes_paired(plan@),
                        plan_no_needless_acquires(*problem, plan@),
                        plan_sources_justified(*problem, plan@),
                        first_holders_justified(*problem, plan@, symbolic_store.pairs()),
                        pairs_covered(*problem, plan@, symbolic_store.pairs()),
                        acquires_recorded(plan@, symbolic_store.pairs()),
                        plan_routing_complete(*problem, plan@),
                        plan_acquires_needed_or(plan@, compute_site, c),
                        plan_acquires_unique(plan@),
                        avail0 == problem.initial_assets(),
                        forall|x: AssetId|
                            #[trigger] symbolic_store.someone_holds(x) <==> avail0.union(
                                seq_outputs(done),
                            ).contains(x),
                        schedule_ok(avail0, done),
                    decreases needed@.len() - k,
                {
                    let a = needed[k];
                    if !symbolic_store.contains_pair(compute_site, a) {
                        let having_site = match symbolic_store.first_holder(a) {
                            Some(hs) => hs,
                            None => {
                                proof {
                                    assert(symbolic_store.someone_holds(needed@[k as int]));
                                    assert(false);
                                }
                                compute_site
                            },
                        };
                        let ghost pv0 = plan@;
                        let ghost pairs0 = symbolic_store.pairs();
                        symbolic_store.insert(compute_site, a);
                        plan.push_item(
                            having_site,
                            Instruction::SendAssetTo { asset_id: a, site_id: compute_site },
                        );
                        plan.push_item(
                            compute_site,
                            Instruction::AcquireAssetFrom { asset_id: a, site_id: having_site },
                        );
                        proof {
                            assert(c.needed()[k as int] == a);
                            assert(c.needed().contains(a));
                            lemma_route_step(
                                *problem,
                                pv0,
                                done,
                                pairs0,
                                compute_site,
                                having_site,
                                a,
                                c,
                            );
                            assert forall|m: int|
                                0 <= m < k + 1 implies symbolic_store.pairs().contains(
                                (compute_site, #[trigger] needed@[m]),
                            ) by {
                                if m < k {
                                    lemma_contains_push(
                                        pairs0,
                                        (compute_site, a),
                                        (compute_site, needed@[m]),
                                    );
                                } else {
                                    assert(symbolic_store.pairs()[pairs0.len() as int] == (
                                    compute_site,
                                    a,
                                    ));
                                }
                            }
                            assert(plan@ == pv0.push(
                                (
                                    having_site,
                                    InstrView::SendAssetTo { asset_id: a, site_id: compute_site },
                                ),
                            ).push(
                                (
                                    compute_site,
                                    InstrView::AcquireAssetFrom {
                                        asset_id: a,
                                        site_id: having_site,
                                    },
                                ),
                            ));
                            assert(symbolic_store.pairs() == pairs0.push((compute_site, a)));
                            // the asset was already held somewhere, so the set of
                            // available assets is unchanged
                            assert forall|x: AssetId|
                                #[trigger] symbolic_store.someone_holds(x) <==> avail0.union(
                                    seq_outputs(done),
                                ).contains(x) by {
                                if x == a {
                                    assert(avail0.union(seq_outputs(done)).contains(a));
                                }
                            }
                        }
                    }
                    proof {
                        assert(symbolic_store.pairs().contains(
                            (compute_site, needed@[k as int]),
                        ));
                    }
                    k = k + 1;
                }
                // copy the outputs, then place the computation itself
                let mut outs: Vec<AssetId> = Vec::new();
                copy_assets_into(&next_compute.outputs, &mut outs);
                proof {
                    assert(outs@ =~= c.outputs);
                }
                let ghost pv0 = plan@;
                let ghost done0 = done;
                plan.push_item(compute_site, Instruction::ComputeAssetData(next_compute));
                proof {
                    lemma_compute_step(*problem, pv0, done, symbolic_store.pairs(), compute_site, c);
                    assert(plan@ == pv0.push((compute_site, InstrView::ComputeAssetData(c))));
                    assert(feasible_from(c, avail0.union(seq_outputs(done0)))) by {
                        assert forall|kk: int|
                            0 <= kk < c.needed().len() implies avail0.union(
                            seq_outputs(done0),
                        ).contains(#[trigger] c.needed()[kk]) by {
                            assert(symbolic_store.someone_holds(needed@[kk]));
                        }
                    }
                    lemma_schedule_push(avail0, done0, c);
                    done = done.push(c);
                    assert(done.to_multiset().add(symbolic_progress@.to_multiset())
                        =~= problem.computes().to_multiset());
                    assert((plan@[pv0.len() as int]).0 == compute_site && plan@[pv0.len() as int].1
                        == InstrView::ComputeAssetData(c));
                }
                // record the outputs as held at the compute site
                let mut k2: usize = 0;
                while k2 < outs.len()
                    invariant
                        0 <= k2 <= outs@.len(),
                        outs@ == c.outputs,
                        symbolic_store.wf(),
                        exists|kk: int|
                            0 <= kk < plan@.len() && (#[trigger] plan@[kk]).0 == compute_site
                                && plan@[kk].1 == InstrView::ComputeAssetData(c),
                        forall|q: int|
                            0 <= q < problem.site_has_asset@.len() ==> symbolic_store.pairs()
                                .contains(#[trigger] problem.site_has_asset@[q]),
                        done.to_multiset().add(symbolic_progress@.to_multiset()) == problem
                            .computes().to_multiset(),
                        computes_of(plan@) == done,
                        plan_computes_sound(*problem, plan@),
                        plan_routes_paired(plan@),
                        plan_no_needless_acquires(*problem, plan@),
                        plan_sources_justified(*problem, plan@),
                        first_holders_justified(*problem, plan@, symbolic_store.pairs()),
                        pairs_covered(*problem, plan@, symbolic_store.pairs()),
                        acquires_recorded(plan@, symbolic_store.pairs()),
                        plan_routing_complete(*problem, plan@),
                        plan_acquires_needed(plan@),
                        plan_acquires_unique(plan@),
                        avail0 == problem.initial_assets(),
                        done == done0.push(c),
                        schedule_ok(avail0, done),
                        forall|x: AssetId|
                            #[trigger] symbolic_store.someone_holds(x) <==> (avail0.union(
                                seq_outputs(done0),
                            ).contains(x) || (exists|m: int| 0 <= m < k2 && outs@[m] == x)),
                    decreases outs@.len() - k2,
                {
                    let o = outs[k2];
                    let ghost pairs0 = symbolic_store.pairs();
                    let ghost held = symbolic_store.holds(compute_site, o);
                    let ghost store_pre = symbolic_store;
                    symbolic_store.insert(compute_site, o);
                    proof {
                        if !held {
                            assert(c.outputs.contains(o));
                            lemma_output_step(*problem, plan@, pairs0, compute_site, c, o);
                            assert(symbolic_store.pairs() == pairs0.push((compute_site, o)));
                        }
                        lemma_partial_avail_step(
                            avail0.union(seq_outputs(done0)),
                            outs@,
                            k2 as int,
                            o,
                            store_pre,
                            symbolic_store,
                        );
                    }
                    k2 = k2 + 1;
                }
                proof {
                    lemma_partial_avail_done(avail0, done0, c, outs@, symbolic_store);
                }
            },
        }
    }
}

/// Append a copy of every asset id in `src` to `dst`.
fn copy_assets_into(src: &Vec<AssetId>, dst: &mut Vec<AssetId>)
    ensures
        final(dst)@ == old(dst)@ + src@,
{
    let mut i: usize = 0;
    while i < src.len()
        invariant
            0 <= i <= src@.len(),
            dst@ == old(dst)@ + src@.take(i as int),
        decreases src@.len() - i,
    {
        dst.push(src[i]);
        proof {
            assert(dst@ =~= old(dst)@ + src@.take(i + 1));
        }
        i = i + 1;
    }
    proof {
        assert(old(dst)@ + src@.take(src@.len() as int) =~= old(dst)@ + src@);
    }
}

} // verus!

