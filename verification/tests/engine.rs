//! Site engine scenarios, driven through a deterministic in-test message
//! pump: end-to-end completion, rate limiting, tampering, idempotent
//! delivery, and the chained computation values.

use fedcompute::ids::AssetId;
use fedcompute::ids::SiteId;
use fedcompute::model::AssetData;
use fedcompute::model::ComputeArgs;
use fedcompute::model::Instruction;
use fedcompute::planning::Problem;
use fedcompute::planning::plan;
use fedcompute::protocol::Msg;
use fedcompute::protocol::SignedMsg;
use fedcompute::site::Outgoing;
use fedcompute::site::RecvOutcome;
use fedcompute::site::Site;

fn secret(tag: u8) -> Vec<u8> {
    vec![tag; 32]
}

/// Deliver every queued message, collecting replies, until quiescence.
fn pump(sites: &mut Vec<Site>, mut queue: Vec<Outgoing>, mut now: u64) -> u64 {
    loop {
        let mut progressed = false;
        for s in sites.iter_mut() {
            let outs = s.run_progress(now);
            if !outs.is_empty() {
                progressed = true;
            }
            queue.extend(outs);
        }
        if queue.is_empty() && !progressed {
            return now;
        }
        let pending: Vec<Outgoing> = std::mem::take(&mut queue);
        for m in pending {
            let dest = sites
                .iter_mut()
                .find(|s| s.site_id() == m.dest)
                .expect("unknown destination");
            let (_, reply) = dest.handle_message(m.envelope);
            if let Some(r) = reply {
                queue.push(r);
            }
            progressed = true;
        }
        now += 350;
        if now > 20_000 {
            panic!("no quiescence");
        }
    }
}

/// The 64-bit FNV-1a fold, for expected values.
fn fnv1a(bytes: &[u8]) -> u64 {
    let mut h: u64 = 0xcbf29ce484222325;
    for b in bytes {
        h ^= *b as u64;
        h = h.wrapping_mul(0x100000001b3);
    }
    h
}

fn chain_value(words: &[u64]) -> u64 {
    let mut bytes = Vec::new();
    for w in words {
        bytes.extend_from_slice(&w.to_be_bytes());
    }
    fnv1a(&bytes)
}

// End to end: after execution, bob holds x, y, f and the computed z.
#[test]
fn amy_bob_cho_executes() {
    let mut amy = Site::new(secret(1));
    let mut bob = Site::new(secret(2));
    let mut cho = Site::new(secret(3));
    let (ida, idb, idc) = (amy.site_id(), bob.site_id(), cho.site_id());
    let x = AssetId(0);
    let y = AssetId(1);
    let z = AssetId(2);
    let f = AssetId(3);
    let problem = Problem {
        may_access: vec![(ida, x), (idb, x), (idb, y), (idb, f), (idc, f), (idc, z)],
        may_compute: vec![(idb, f)],
        site_has_asset: vec![(ida, x), (idb, y), (idc, f)],
        do_compute: vec![ComputeArgs { inputs: vec![x, y], outputs: vec![z], compute_asset: f }],
    };
    let planned = plan(&problem).unwrap();
    amy.give_asset(x, AssetData { bits: 0xDEADBEEF });
    bob.give_asset(y, AssetData { bits: 0xD00DEEDADA });
    cho.give_asset(f, AssetData { bits: 0xC0FEFE });
    let mut sites = vec![amy, bob, cho];
    for (dest, ins) in planned.into_items() {
        let s = sites.iter_mut().find(|s| s.site_id() == dest).unwrap();
        s.give_instruction(ins);
    }
    pump(&mut sites, Vec::new(), 0);
    let bob = sites.iter().find(|s| s.site_id() == idb).unwrap();
    assert_eq!(bob.get_asset(x), Some(AssetData { bits: 0xDEADBEEF }));
    assert_eq!(bob.get_asset(y), Some(AssetData { bits: 0xD00DEEDADA }));
    assert_eq!(bob.get_asset(f), Some(AssetData { bits: 0xC0FEFE }));
    let expected_z = chain_value(&[0xDEADBEEF, 0xD00DEEDADA, 0xC0FEFE]);
    assert_eq!(bob.get_asset(z), Some(AssetData { bits: expected_z }));
    // every site is done
    for s in &sites {
        assert_eq!(s.todo_len(), 0);
    }
}

// A peer that never answers sees at most ceil(1000/300) = 4 requests
// for the same asset within one second.
#[test]
fn requests_are_rate_limited() {
    let mut lone = Site::new(secret(1));
    let peer = SiteId::new([9; 32]);
    let a = AssetId(7);
    lone.give_instruction(Instruction::AcquireAssetFrom { asset_id: a, site_id: peer });
    let mut total = 0;
    let mut now: u64 = 0;
    while now <= 1000 {
        let outs = lone.run_progress(now);
        for m in &outs {
            assert_eq!(m.dest, peer);
            assert!(matches!(m.envelope.msg, Msg::AssetDataRequest { asset_id } if asset_id == a));
        }
        total += outs.len();
        now += 50;
    }
    assert_eq!(total, 4);
}

// Two progress calls inside one period emit one request only.
#[test]
fn retransmit_is_suppressed_within_period() {
    let mut lone = Site::new(secret(1));
    let peer = SiteId::new([9; 32]);
    let a = AssetId(7);
    lone.give_instruction(Instruction::AcquireAssetFrom { asset_id: a, site_id: peer });
    assert_eq!(lone.run_progress(0).len(), 1);
    assert_eq!(lone.run_progress(299).len(), 0);
    assert_eq!(lone.run_progress(300).len(), 1);
}

// A message whose signature covers different bytes is dropped whole.
#[test]
fn tampered_message_is_dropped() {
    let mut receiver = Site::new(secret(1));
    let sender_secret = secret(2);
    let peer = SiteId::new([9; 32]);
    let a = AssetId(3);
    receiver.give_instruction(Instruction::AcquireAssetFrom { asset_id: a, site_id: peer });
    receiver.run_progress(0);
    // sign one payload, then swap in another
    let signed = (Msg::AssetData { asset_id: a, asset_data: AssetData { bits: 1 } }).sign(
        &sender_secret,
    );
    let tampered = SignedMsg {
        sender_public_key: signed.sender_public_key,
        signature: signed.signature,
        msg: Msg::AssetData { asset_id: a, asset_data: AssetData { bits: 2 } },
    };
    let (outcome, reply) = receiver.handle_message(tampered);
    assert_eq!(outcome, RecvOutcome::BadSignature);
    assert!(reply.is_none());
    assert_eq!(receiver.get_asset(a), None);
    assert_eq!(receiver.todo_len(), 1);
    // a valid message still lands afterwards
    let good = (Msg::AssetData { asset_id: a, asset_data: AssetData { bits: 1 } }).sign(
        &sender_secret,
    );
    let (outcome, _) = receiver.handle_message(good);
    assert_eq!(outcome, RecvOutcome::StoredData);
    assert_eq!(receiver.get_asset(a), Some(AssetData { bits: 1 }));
}

// Idempotent delivery: data the store already holds changes nothing.
#[test]
fn redelivery_is_idempotent() {
    let mut s = Site::new(secret(1));
    let sender_secret = secret(2);
    let a = AssetId(3);
    let msg = Msg::AssetData { asset_id: a, asset_data: AssetData { bits: 42 } };
    let (o1, _) = s.handle_message(msg.sign(&sender_secret));
    assert_eq!(o1, RecvOutcome::StoredData);
    assert_eq!(s.get_asset(a), Some(AssetData { bits: 42 }));
    let (o2, _) = s.handle_message(msg.sign(&sender_secret));
    assert_eq!(o2, RecvOutcome::StoredData);
    assert_eq!(s.get_asset(a), Some(AssetData { bits: 42 }));
}

// A request for an asset already here is answered immediately; one for a
// missing asset becomes a pending send, fulfilled once the asset arrives.
#[test]
fn requests_are_answered_or_queued() {
    let mut s = Site::new(secret(1));
    let asker_secret = secret(2);
    let here = AssetId(1);
    let missing = AssetId(2);
    s.give_asset(here, AssetData { bits: 5 });
    let (o, reply) = s.handle_message(
        (Msg::AssetDataRequest { asset_id: here }).sign(&asker_secret),
    );
    assert_eq!(o, RecvOutcome::Replied);
    let reply = reply.unwrap();
    assert!(matches!(
        reply.envelope.msg,
        Msg::AssetData { asset_id, asset_data }
            if asset_id == here && asset_data == AssetData { bits: 5 }
    ));
    assert!(reply.envelope.verify());
    let (o, reply) = s.handle_message(
        (Msg::AssetDataRequest { asset_id: missing }).sign(&asker_secret),
    );
    assert_eq!(o, RecvOutcome::QueuedSend);
    assert!(reply.is_none());
    assert_eq!(s.todo_len(), 1);
    // once the asset arrives, the queued send is completed
    let (o, _) = s.handle_message(
        (Msg::AssetData { asset_id: missing, asset_data: AssetData { bits: 9 } }).sign(
            &asker_secret,
        ),
    );
    assert_eq!(o, RecvOutcome::StoredData);
    let outs = s.run_progress(0);
    assert_eq!(outs.len(), 1);
    assert!(matches!(
        outs[0].envelope.msg,
        Msg::AssetData { asset_id, asset_data }
            if asset_id == missing && asset_data == AssetData { bits: 9 }
    ));
    assert_eq!(s.todo_len(), 0);
}

// Two serial computations on two sites; the intermediate
// asset is routed between them and the final output appears downstream.
#[test]
fn chained_computes_execute() {
    let mut s1 = Site::new(secret(1));
    let mut s2 = Site::new(secret(2));
    let (id1, id2) = (s1.site_id(), s2.site_id());
    let a = AssetId(0);
    let m = AssetId(1);
    let out = AssetId(2);
    let p = AssetId(3);
    let q = AssetId(4);
    let problem = Problem {
        may_access: vec![(id1, a), (id1, m), (id1, p), (id2, m), (id2, out), (id2, q)],
        may_compute: vec![(id1, p), (id2, q)],
        site_has_asset: vec![(id1, a), (id1, p), (id2, q)],
        do_compute: vec![
            ComputeArgs { inputs: vec![a], outputs: vec![m], compute_asset: p },
            ComputeArgs { inputs: vec![m], outputs: vec![out], compute_asset: q },
        ],
    };
    let planned = plan(&problem).unwrap();
    s1.give_asset(a, AssetData { bits: 100 });
    s1.give_asset(p, AssetData { bits: 200 });
    s2.give_asset(q, AssetData { bits: 300 });
    let mut sites = vec![s1, s2];
    for (dest, ins) in planned.into_items() {
        let s = sites.iter_mut().find(|s| s.site_id() == dest).unwrap();
        s.give_instruction(ins);
    }
    pump(&mut sites, Vec::new(), 0);
    let m_val = chain_value(&[100, 200]);
    let out_val = chain_value(&[m_val, 300]);
    let s2 = sites.iter().find(|s| s.site_id() == id2).unwrap();
    assert_eq!(s2.get_asset(m), Some(AssetData { bits: m_val }));
    assert_eq!(s2.get_asset(out), Some(AssetData { bits: out_val }));
    for s in &sites {
        assert_eq!(s.todo_len(), 0);
    }
}

// The computation folds FNV-1a over the needed words and chains across
// outputs, each output getting a distinct deterministic value.
#[test]
fn compute_chains_distinct_outputs() {
    let mut s = Site::new(secret(1));
    let in1 = AssetId(0);
    let prog = AssetId(1);
    let o1 = AssetId(2);
    let o2 = AssetId(3);
    s.give_asset(in1, AssetData { bits: 11 });
    s.give_asset(prog, AssetData { bits: 22 });
    s.give_instruction(Instruction::ComputeAssetData(ComputeArgs {
        inputs: vec![in1],
        outputs: vec![o1, o2],
        compute_asset: prog,
    }));
    let outs = s.run_progress(0);
    assert!(outs.is_empty());
    assert_eq!(s.todo_len(), 0);
    let v1 = chain_value(&[11, 22]);
    let v2 = chain_value(&[11, 22, v1]);
    assert_ne!(v1, v2);
    assert_eq!(s.get_asset(o1), Some(AssetData { bits: v1 }));
    assert_eq!(s.get_asset(o2), Some(AssetData { bits: v2 }));
}
