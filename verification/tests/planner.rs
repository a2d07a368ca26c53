//! Planner scenarios: the three-site example, cyclic causality, and the
//! missing-site diagnostic.

use fedcompute::ids::AssetId;
use fedcompute::ids::SiteId;
use fedcompute::model::ComputeArgs;
use fedcompute::model::Instruction;
use fedcompute::planning::Plan;
use fedcompute::planning::PlanError;
use fedcompute::planning::Problem;
use fedcompute::planning::SymbolicProgress;
use fedcompute::planning::SymbolicStore;
use fedcompute::planning::plan;
use fedcompute::planning::site_for_compute;

fn site(tag: u8) -> SiteId {
    SiteId::new([tag; 32])
}

fn items_of(plan: Plan) -> Vec<(SiteId, Instruction)> {
    plan.into_items()
}

#[test]
fn needed_assets_are_inputs_then_program() {
    let c = ComputeArgs {
        inputs: vec![AssetId(0), AssetId(1)],
        outputs: vec![AssetId(2)],
        compute_asset: AssetId(3),
    };
    assert_eq!(c.needed_assets(), vec![AssetId(0), AssetId(1), AssetId(3)]);
}

#[test]
fn amy_bob_cho_plan() {
    let amy = site(1);
    let bob = site(2);
    let cho = site(3);
    let x = AssetId(0);
    let y = AssetId(1);
    let z = AssetId(2);
    let f = AssetId(3);
    let problem = Problem {
        may_access: vec![(amy, x), (bob, x), (bob, y), (bob, f), (cho, f), (cho, z)],
        may_compute: vec![(bob, f)],
        site_has_asset: vec![(amy, x), (bob, y), (cho, f)],
        do_compute: vec![ComputeArgs { inputs: vec![x, y], outputs: vec![z], compute_asset: f }],
    };
    let planned = plan(&problem).unwrap();
    let items = items_of(planned);
    assert_eq!(items.len(), 5);
    assert!(matches!(
        &items[0],
        (s, Instruction::SendAssetTo { asset_id, site_id })
            if *s == amy && *asset_id == x && *site_id == bob
    ));
    assert!(matches!(
        &items[1],
        (s, Instruction::AcquireAssetFrom { asset_id, site_id })
            if *s == bob && *asset_id == x && *site_id == amy
    ));
    assert!(matches!(
        &items[2],
        (s, Instruction::SendAssetTo { asset_id, site_id })
            if *s == cho && *asset_id == f && *site_id == bob
    ));
    assert!(matches!(
        &items[3],
        (s, Instruction::AcquireAssetFrom { asset_id, site_id })
            if *s == bob && *asset_id == f && *site_id == cho
    ));
    match &items[4] {
        (s, Instruction::ComputeAssetData(c)) => {
            assert_eq!(*s, bob);
            assert_eq!(c.inputs, vec![x, y]);
            assert_eq!(c.outputs, vec![z]);
            assert_eq!(c.compute_asset, f);
        },
        _ => panic!("expected a computation placement"),
    }
}

// No needless work: an asset held initially at a site is never acquired there.
#[test]
fn no_needless_acquires() {
    let amy = site(1);
    let bob = site(2);
    let cho = site(3);
    let x = AssetId(0);
    let y = AssetId(1);
    let z = AssetId(2);
    let f = AssetId(3);
    let problem = Problem {
        may_access: vec![(amy, x), (bob, x), (bob, y), (bob, f), (cho, f), (cho, z)],
        may_compute: vec![(bob, f)],
        site_has_asset: vec![(amy, x), (bob, y), (cho, f)],
        do_compute: vec![ComputeArgs { inputs: vec![x, y], outputs: vec![z], compute_asset: f }],
    };
    let items = items_of(plan(&problem).unwrap());
    for (s, ins) in &items {
        if let Instruction::AcquireAssetFrom { asset_id, .. } = ins {
            assert!(!problem.site_has_asset.contains(&(*s, *asset_id)));
        }
    }
}

// Routing dual: every acquire has its matching send at the named source.
#[test]
fn routes_are_paired() {
    let amy = site(1);
    let bob = site(2);
    let cho = site(3);
    let x = AssetId(0);
    let y = AssetId(1);
    let z = AssetId(2);
    let f = AssetId(3);
    let problem = Problem {
        may_access: vec![(amy, x), (bob, x), (bob, y), (bob, f), (cho, f), (cho, z)],
        may_compute: vec![(bob, f)],
        site_has_asset: vec![(amy, x), (bob, y), (cho, f)],
        do_compute: vec![ComputeArgs { inputs: vec![x, y], outputs: vec![z], compute_asset: f }],
    };
    let items = items_of(plan(&problem).unwrap());
    let mut acquires: Vec<(SiteId, AssetId, SiteId)> = Vec::new();
    let mut sends: Vec<(SiteId, AssetId, SiteId)> = Vec::new();
    for (s, ins) in &items {
        match ins {
            Instruction::AcquireAssetFrom { asset_id, site_id } => {
                acquires.push((*s, *asset_id, *site_id));
            },
            Instruction::SendAssetTo { asset_id, site_id } => {
                sends.push((*site_id, *asset_id, *s));
            },
            _ => {},
        }
    }
    assert_eq!(acquires, sends);
}

// Two computations whose inputs depend on each other's outputs.
#[test]
fn cycle_is_detected() {
    let s1 = site(1);
    let a = AssetId(10);
    let b = AssetId(11);
    let p = AssetId(12);
    let q = AssetId(13);
    let problem = Problem {
        may_access: vec![(s1, a), (s1, b), (s1, p), (s1, q)],
        may_compute: vec![(s1, p), (s1, q)],
        site_has_asset: vec![(s1, p), (s1, q)],
        do_compute: vec![
            ComputeArgs { inputs: vec![a], outputs: vec![b], compute_asset: p },
            ComputeArgs { inputs: vec![b], outputs: vec![a], compute_asset: q },
        ],
    };
    match plan(&problem) {
        Err(PlanError::CyclicCausality(c)) => {
            assert!(c.compute_asset == p || c.compute_asset == q);
        },
        _ => panic!("expected cyclic causality"),
    }
}

// The only permitted compute site may not access one input.
#[test]
fn no_eligible_site_is_reported() {
    let s1 = site(1);
    let input = AssetId(0);
    let out = AssetId(1);
    let f = AssetId(2);
    let problem = Problem {
        may_access: vec![(s1, f)],
        may_compute: vec![(s1, f)],
        site_has_asset: vec![(s1, input), (s1, f)],
        do_compute: vec![ComputeArgs { inputs: vec![input], outputs: vec![out], compute_asset: f }],
    };
    match plan(&problem) {
        Err(PlanError::NoSiteForCompute(c)) => {
            assert_eq!(c.compute_asset, f);
        },
        _ => panic!("expected no eligible site"),
    }
}

#[test]
fn empty_problem_plans_to_nothing() {
    let problem = Problem {
        may_access: vec![],
        may_compute: vec![],
        site_has_asset: vec![],
        do_compute: vec![],
    };
    let items = items_of(plan(&problem).unwrap());
    assert!(items.is_empty());
}

#[test]
fn site_for_compute_picks_first_eligible() {
    let s1 = site(1);
    let s2 = site(2);
    let input = AssetId(0);
    let out = AssetId(1);
    let f = AssetId(2);
    let problem = Problem {
        may_access: vec![(s2, input), (s2, f)],
        may_compute: vec![(s1, f), (s2, f)],
        site_has_asset: vec![(s2, input), (s2, f)],
        do_compute: vec![ComputeArgs { inputs: vec![input], outputs: vec![out], compute_asset: f }],
    };
    let c = ComputeArgs { inputs: vec![input], outputs: vec![out], compute_asset: f };
    assert_eq!(site_for_compute(&problem, &c), Some(s2));
}

#[test]
fn symbolic_progress_takes_feasible_first() {
    let s1 = site(1);
    let a = AssetId(0);
    let b = AssetId(1);
    let p = AssetId(2);
    let computes = vec![
        ComputeArgs { inputs: vec![b], outputs: vec![], compute_asset: p },
        ComputeArgs { inputs: vec![a], outputs: vec![b], compute_asset: p },
    ];
    let store = SymbolicStore::with_assets(&vec![(s1, a), (s1, p)]);
    let mut progress = SymbolicProgress::with_compute_to_do(&computes);
    // the first computation misses `b`; the second is feasible
    let taken = progress.take_feasible_compute(&store).unwrap();
    assert_eq!(taken.inputs, vec![a]);
    // nothing else is feasible now; the stuck report leaves the set unchanged
    match progress.take_feasible_compute(&store) {
        Err(Some(c)) => assert_eq!(c.inputs, vec![b]),
        _ => panic!("expected a stuck computation"),
    }
    match progress.take_feasible_compute(&store) {
        Err(Some(c)) => assert_eq!(c.inputs, vec![b]),
        _ => panic!("expected the stuck computation to remain"),
    }
}

// A dependency cycle with an empty policy: the stalled symbolic execution is
// reported as cyclic causality, never as a missing compute site.
#[test]
fn cycle_is_reported_before_missing_site() {
    let p = AssetId(0);
    let q = AssetId(1);
    let a = AssetId(2);
    let b = AssetId(3);
    let problem = Problem {
        may_access: vec![],
        may_compute: vec![],
        site_has_asset: vec![],
        do_compute: vec![
            ComputeArgs { inputs: vec![a], outputs: vec![b], compute_asset: p },
            ComputeArgs { inputs: vec![b], outputs: vec![a], compute_asset: q },
        ],
    };
    match plan(&problem) {
        Err(PlanError::CyclicCausality(c)) => assert_eq!(c.compute_asset, p),
        _ => panic!("expected cyclic causality"),
    }
}

#[test]
fn two_chained_computes_are_ordered() {
    // Chained planning: one computation produces m, the other consumes it.
    let s1 = site(1);
    let s2 = site(2);
    let a = AssetId(0);
    let m = AssetId(1);
    let out = AssetId(2);
    let p = AssetId(3);
    let q = AssetId(4);
    let problem = Problem {
        may_access: vec![
            (s1, a),
            (s1, m),
            (s1, p),
            (s2, m),
            (s2, out),
            (s2, q),
        ],
        may_compute: vec![(s1, p), (s2, q)],
        site_has_asset: vec![(s1, a), (s1, p), (s2, q)],
        do_compute: vec![
            ComputeArgs { inputs: vec![m], outputs: vec![out], compute_asset: q },
            ComputeArgs { inputs: vec![a], outputs: vec![m], compute_asset: p },
        ],
    };
    let items = items_of(plan(&problem).unwrap());
    let computes: Vec<AssetId> = items
        .iter()
        .filter_map(|(_, ins)| match ins {
            Instruction::ComputeAssetData(c) => Some(c.compute_asset),
            _ => None,
        })
        .collect();
    // the producer (program p) is sequenced before the consumer (program q)
    assert_eq!(computes, vec![p, q]);
    // and m is routed from s1 to s2
    assert!(items.iter().any(|(s, ins)| matches!(
        ins,
        Instruction::SendAssetTo { asset_id, site_id }
            if *s == s1 && *asset_id == m && *site_id == s2
    )));
    assert!(items.iter().any(|(s, ins)| matches!(
        ins,
        Instruction::AcquireAssetFrom { asset_id, site_id }
            if *s == s2 && *asset_id == m && *site_id == s1
    )));
}
