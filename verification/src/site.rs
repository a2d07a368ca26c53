//! The site execution engine: it drives an instruction list to completion
//! against a local asset store, emitting signed messages for a caller-run
//! transport and folding received messages back into its state.

use vstd::prelude::*;

use crate::ids::AssetId;
use crate::ids::SiteId;
use crate::model::AssetData;
use crate::model::ComputeArgs;
use crate::model::ComputeArgsView;
use crate::model::Instruction;
use crate::model::InstrView;
use crate::protocol::Msg;
use crate::protocol::SignedMsg;
use crate::protocol::be_bytes_u64;
use crate::protocol::push_be_u64;
use crate::protocol::public_key_of;
use crate::protocol::sig_verifies;
use crate::protocol::spec_encode_msg;
use crate::protocol::derive_public_key;
use crate::store::VecMap;

verus! {

broadcast use vstd::seq_lib::group_to_multiset_ensures;

/// Minimum spacing between repeated requests for the same asset, in
/// milliseconds.
pub const REQUEST_PERIOD_MS: u64 = 300;

/// One FNV-1a step: fold byte `b` into state `h` by xor, then a wrapping
/// multiply with the FNV prime.
pub open spec fn fnv64_step(h: u64, b: u8) -> u64 {
    ((((h ^ (b as u64)) as int) * 0x100000001b3) % 0x10000000000000000) as u64
}

/// The 64-bit FNV-1a digest of a byte string: the offset basis folded
/// through one step per byte, left to right.
pub open spec fn fnv64(bytes: Seq<u8>) -> u64
    decreases bytes.len(),
{
    if bytes.len() == 0 {
        0xcbf29ce484222325u64
    } else {
        fnv64_step(fnv64(bytes.drop_last()), bytes.last())
    }
}

/// Relies on fnv::FnvHasher: it starts from the FNV offset basis and folds
/// each written byte in by xor followed by a wrapping multiply with the FNV
/// prime, which is exactly `fnv64`.
#[verifier::external_body]
fn fnv_hash_bytes(bytes: &Vec<u8>) -> (r: u64)
    ensures
        r == fnv64(bytes@),
{
    let mut h = fnv::FnvHasher::default();
    std::hash::Hasher::write(&mut h, bytes.as_slice());
    std::hash::Hasher::finish(&h)
}

/// Each 64-bit word as its eight big-endian bytes, concatenated.
pub open spec fn words_bytes(ws: Seq<u64>) -> Seq<u8>
    decreases ws.len(),
{
    if ws.len() == 0 {
        Seq::empty()
    } else {
        words_bytes(ws.drop_last()) + be_bytes_u64(ws.last())
    }
}

proof fn lemma_words_bytes_push(ws: Seq<u64>, w: u64)
    ensures
        words_bytes(ws.push(w)) == words_bytes(ws) + be_bytes_u64(w),
{
    assert(ws.push(w).drop_last() =~= ws);
    assert(ws.push(w).last() == w);
}

/// The first `k` chained output words of a computation whose needed input
/// words are `ws`: each output hashes the input words followed by all
/// earlier outputs.
pub open spec fn hash_chain(ws: Seq<u64>, k: nat) -> Seq<u64>
    decreases k,
{
    if k == 0 {
        Seq::empty()
    } else {
        let prev = hash_chain(ws, (k - 1) as nat);
        prev.push(fnv64(words_bytes(ws + prev)))
    }
}

proof fn lemma_hash_chain_len(ws: Seq<u64>, k: nat)
    ensures
        hash_chain(ws, k).len() == k,
    decreases k,
{
    if k > 0 {
        lemma_hash_chain_len(ws, (k - 1) as nat);
    }
}

/// The needed input words of `c`, read from `store`.
pub open spec fn needed_words(store: Map<AssetId, AssetData>, c: ComputeArgsView) -> Seq<u64> {
    c.needed().map_values(|a: AssetId| store[a].bits)
}

/// The store fragment a computation produces: output `j` carries chained
/// value `j`; when an output id repeats, the later value wins.
pub open spec fn outputs_map(outs: Seq<AssetId>, vals: Seq<u64>, k: nat) -> Map<AssetId, AssetData>
    decreases k,
{
    if k == 0 {
        Map::empty()
    } else {
        outputs_map(outs, vals, (k - 1) as nat).insert(
            outs[k - 1],
            AssetData { bits: vals[k - 1] },
        )
    }
}

proof fn lemma_outputs_map_agree(outs: Seq<AssetId>, v1: Seq<u64>, v2: Seq<u64>, k: nat)
    requires
        forall|m: int| 0 <= m < k ==> v1[m] == v2[m],
    ensures
        outputs_map(outs, v1, k) == outputs_map(outs, v2, k),
    decreases k,
{
    if k > 0 {
        lemma_outputs_map_agree(outs, v1, v2, (k - 1) as nat);
    }
}

/// Run a computation against a store: `None` exactly when a needed asset is
/// missing, otherwise the chained outputs.
pub fn actual_compute(store: &VecMap<AssetData>, compute_args: &ComputeArgs) -> (r: Option<
    VecMap<AssetData>,
>)
    requires
        store.wf(),
    ensures
        r is Some <==> compute_ready(compute_args@, store@),
        (r matches Some(m) ==> m.wf() && m@ == outputs_map(
            compute_args@.outputs,
            hash_chain(
                needed_words(store@, compute_args@),
                compute_args@.outputs.len() as nat,
            ),
            compute_args@.outputs.len() as nat,
        )),
{
    let needed = compute_args.needed_assets();
    let mut words: Vec<u64> = Vec::new();
    let mut i: usize = 0;
    while i < needed.len()
        invariant
            0 <= i <= needed@.len(),
            needed@ == compute_args@.needed(),
            words@.len() == i,
            store.wf(),
            forall|j: int|
                0 <= j < i ==> store@.contains_key(#[trigger] needed@[j]) && words@[j]
                    == store@[needed@[j]].bits,
        decreases needed@.len() - i,
    {
        match store.get(needed[i]) {
            None => {
                proof {
                    assert(!compute_ready(compute_args@, store@));
                }
                return None;
            },
            Some(d) => {
                words.push(d.bits);
            },
        }
        i = i + 1;
    }
    proof {
        assert(words@ =~= needed_words(store@, compute_args@));
        assert(compute_ready(compute_args@, store@));
    }
    let ghost ws = words@;
    let mut bytes: Vec<u8> = Vec::new();
    let mut i2: usize = 0;
    proof {
        assert(ws.take(0) =~= Seq::<u64>::empty());
        assert(bytes@ =~= words_bytes(ws.take(0)));
    }
    while i2 < words.len()
        invariant
            0 <= i2 <= ws.len(),
            words@ == ws,
            bytes@ == words_bytes(ws.take(i2 as int)),
        decreases ws.len() - i2,
    {
        push_be_u64(&mut bytes, words[i2]);
        proof {
            lemma_words_bytes_push(ws.take(i2 as int), ws[i2 as int]);
            assert(ws.take(i2 as int).push(ws[i2 as int]) =~= ws.take(i2 + 1));
        }
        i2 = i2 + 1;
    }
    proof {
        assert(ws.take(ws.len() as int) =~= ws);
    }
    let total = compute_args.outputs.len();
    let mut out: VecMap<AssetData> = VecMap::new();
    let mut j: usize = 0;
    proof {
        assert(ws + hash_chain(ws, 0) =~= ws);
    }
    while j < total
        invariant
            0 <= j <= total,
            total == compute_args@.outputs.len(),
            out.wf(),
            out@ == outputs_map(compute_args@.outputs, hash_chain(ws, j as nat), j as nat),
            bytes@ == words_bytes(ws + hash_chain(ws, j as nat)),
        decreases total - j,
    {
        let h = fnv_hash_bytes(&bytes);
        let ghost chain_j = hash_chain(ws, j as nat);
        proof {
            lemma_hash_chain_len(ws, j as nat);
            assert(h == fnv64(words_bytes(ws + chain_j)));
            assert(hash_chain(ws, (j + 1) as nat) == chain_j.push(h));
        }
        out.insert(compute_args.outputs[j], AssetData { bits: h });
        proof {
            let chain_j1 = hash_chain(ws, (j + 1) as nat);
            lemma_outputs_map_agree(compute_args@.outputs, chain_j, chain_j1, j as nat);
            assert(outputs_map(compute_args@.outputs, chain_j1, (j + 1) as nat) == outputs_map(
                compute_args@.outputs,
                chain_j1,
                j as nat,
            ).insert(compute_args@.outputs[j as int], AssetData { bits: chain_j1[j as int] }));
        }
        push_be_u64(&mut bytes, h);
        proof {
            let chain_j1 = hash_chain(ws, (j + 1) as nat);
            lemma_words_bytes_push(ws + chain_j, h);
            assert((ws + chain_j).push(h) =~= ws + chain_j1);
        }
        j = j + 1;
    }
    Some(out)
}

/// The outcome of trying to complete one instruction.
#[derive(Clone, Copy, PartialEq, Eq, Structural, Debug)]
pub enum InsExecResult {
    Incomplete,
    Complete { added_assets_to_store: bool },
}

/// A signed message ready to leave the site, and its destination.
#[derive(Debug)]
pub struct Outgoing {
    pub dest: SiteId,
    pub envelope: SignedMsg,
}

/// The envelope carries `site` as sender and verifies under its key.
pub open spec fn signed_by(env: SignedMsg, site: SiteId) -> bool {
    &&& env.sender_public_key == site
    &&& sig_verifies(site@, spec_encode_msg(env.msg), env.signature@)
}

/// A request for `a` may leave at `now`: none was ever sent, or the last
/// one is at least a full period old.
pub open spec fn may_request(lr: Map<AssetId, u64>, a: AssetId, now: u64) -> bool {
    !lr.contains_key(a) || lr[a] + REQUEST_PERIOD_MS <= now
}

/// Every asset the computation needs is in the store.
pub open spec fn compute_ready(c: ComputeArgsView, store: Map<AssetId, AssetData>) -> bool {
    forall|k: int| 0 <= k < c.needed().len() ==> store.contains_key(#[trigger] c.needed()[k])
}

/// The instruction would be removed from the todo list given `store`.
pub open spec fn instr_completable(iv: InstrView, store: Map<AssetId, AssetData>) -> bool {
    match iv {
        InstrView::AcquireAssetFrom { asset_id, .. } => store.contains_key(asset_id),
        InstrView::SendAssetTo { asset_id, .. } => store.contains_key(asset_id),
        InstrView::ComputeAssetData(c) => compute_ready(c, store),
    }
}

/// A site's private state: signing credential, asset store, and the
/// timestamps of the most recent outbound request per asset.
pub struct SiteInner {
    secret_key: Vec<u8>,
    site_id: SiteId,
    asset_store: VecMap<AssetData>,
    last_requested_at: VecMap<u64>,
}

impl SiteInner {
    pub closed spec fn wf(&self) -> bool {
        &&& self.secret_key@.len() == 32
        &&& self.site_id@ == public_key_of(self.secret_key@)
        &&& self.asset_store.wf()
        &&& self.last_requested_at.wf()
    }

    pub closed spec fn store(&self) -> Map<AssetId, AssetData> {
        self.asset_store@
    }

    pub closed spec fn last_requested(&self) -> Map<AssetId, u64> {
        self.last_requested_at@
    }

    pub closed spec fn id(&self) -> SiteId {
        self.site_id
    }

    /// Sign `msg` for the wire, addressed to `dest`.
    fn make_outgoing(&self, dest: SiteId, msg: Msg) -> (r: Outgoing)
        requires
            self.wf(),
        ensures
            r.dest == dest,
            r.envelope.msg == msg,
            signed_by(r.envelope, self.id()),
    {
        let envelope = msg.sign(&self.secret_key);
        proof {
            crate::ids::lemma_site_id_eq_bytes(envelope.sender_public_key, self.site_id);
        }
        Outgoing { dest, envelope }
    }

    /// Try to complete one instruction at time `now`, handing back the
    /// message to send, if any. The cases:
    ///
    /// - acquire, asset present: done, nothing sent;
    /// - acquire, asset missing, no recent request: request it from the
    ///   named peer and remember `now`; the instruction stays;
    /// - acquire, asset missing, recent request: suppressed retransmit;
    /// - send, asset present: emit the asset data to the named peer, done;
    /// - send, asset missing: wait;
    /// - compute, all needed assets present: run it, fold the outputs into
    ///   the store, done (and the store grew);
    /// - compute, something missing: wait.
    #[verifier::rlimit(100)]
    fn try_complete(&mut self, instruction: &Instruction, now: u64) -> (r: (
        InsExecResult,
        Option<Outgoing>,
    ))
        requires
            old(self).wf(),
        ensures
            final(self).wf(),
            final(self).id() == old(self).id(),
            instruction@ matches InstrView::AcquireAssetFrom { asset_id, site_id } ==> (old(
                self,
            ).store().contains_key(asset_id) ==> {
                &&& r.0 == (InsExecResult::Complete { added_assets_to_store: false })
                &&& r.1 is None
                &&& final(self).store() == old(self).store()
                &&& final(self).last_requested() == old(self).last_requested()
            }),
            instruction@ matches InstrView::AcquireAssetFrom { asset_id, site_id } ==> (!old(
                self,
            ).store().contains_key(asset_id) && may_request(
                old(self).last_requested(),
                asset_id,
                now,
            ) ==> {
                &&& r.0 == InsExecResult::Incomplete
                &&& (r.1 matches Some(out) && out.dest == site_id && out.envelope.msg == (
                Msg::AssetDataRequest { asset_id }) && signed_by(out.envelope, old(self).id()))
                &&& final(self).store() == old(self).store()
                &&& final(self).last_requested() == old(self).last_requested().insert(
                    asset_id,
                    now,
                )
            }),
            instruction@ matches InstrView::AcquireAssetFrom { asset_id, site_id } ==> (!old(
                self,
            ).store().contains_key(asset_id) && !may_request(
                old(self).last_requested(),
                asset_id,
                now,
            ) ==> {
                &&& r.0 == InsExecResult::Incomplete
                &&& r.1 is None
                &&& final(self).store() == old(self).store()
                &&& final(self).last_requested() == old(self).last_requested()
            }),
            instruction@ matches InstrView::SendAssetTo { asset_id, site_id } ==> (old(
                self,
            ).store().contains_key(asset_id) ==> {
                &&& r.0 == (InsExecResult::Complete { added_assets_to_store: false })
                &&& (r.1 matches Some(out) && out.dest == site_id && out.envelope.msg == (
                Msg::AssetData { asset_id, asset_data: old(self).store()[asset_id] }) && signed_by(
                    out.envelope,
                    old(self).id(),
                ))
                &&& final(self).store() == old(self).store()
                &&& final(self).last_requested() == old(self).last_requested()
            }),
            instruction@ matches InstrView::SendAssetTo { asset_id, site_id } ==> (!old(
                self,
            ).store().contains_key(asset_id) ==> {
                &&& r.0 == InsExecResult::Incomplete
                &&& r.1 is None
                &&& final(self).store() == old(self).store()
                &&& final(self).last_requested() == old(self).last_requested()
            }),
            instruction@ matches InstrView::ComputeAssetData(c) ==> (instr_completable(
                instruction@,
                old(self).store(),
            ) ==> {
                &&& r.0 == (InsExecResult::Complete { added_assets_to_store: true })
                &&& r.1 is None
                &&& final(self).store() == old(self).store().union_prefer_right(
                    outputs_map(
                        c.outputs,
                        hash_chain(needed_words(old(self).store(), c), c.outputs.len() as nat),
                        c.outputs.len() as nat,
                    ),
                )
                &&& final(self).last_requested() == old(self).last_requested()
            }),
            instruction@ matches InstrView::ComputeAssetData(c) ==> (!instr_completable(
                instruction@,
                old(self).store(),
            ) ==> {
                &&& r.0 == InsExecResult::Incomplete
                &&& r.1 is None
                &&& final(self).store() == old(self).store()
                &&& final(self).last_requested() == old(self).last_requested()
            }),
    {
        match instruction {
            Instruction::AcquireAssetFrom { asset_id, site_id } => {
                proof {
                    assert(instruction@ == (InstrView::AcquireAssetFrom {
                        asset_id: *asset_id,
                        site_id: *site_id,
                    }));
                }
                if self.asset_store.contains_key(*asset_id) {
                    return (InsExecResult::Complete { added_assets_to_store: false }, None);
                }
                let recent_request = match self.last_requested_at.get(*asset_id) {
                    Some(at) => now < at || now - at < REQUEST_PERIOD_MS,
                    None => false,
                };
                if !recent_request {
                    self.last_requested_at.insert(*asset_id, now);
                    let msg = Msg::AssetDataRequest { asset_id: *asset_id };
                    let out = self.make_outgoing(*site_id, msg);
                    (InsExecResult::Incomplete, Some(out))
                } else {
                    (InsExecResult::Incomplete, None)
                }
            },
            Instruction::SendAssetTo { asset_id, site_id } => {
                proof {
                    assert(instruction@ == (InstrView::SendAssetTo {
                        asset_id: *asset_id,
                        site_id: *site_id,
                    }));
                }
                match self.asset_store.get(*asset_id) {
                    Some(asset_data) => {
                        let msg = Msg::AssetData { asset_id: *asset_id, asset_data };
                        let out = self.make_outgoing(*site_id, msg);
                        (InsExecResult::Complete { added_assets_to_store: false }, Some(out))
                    },
                    None => (InsExecResult::Incomplete, None),
                }
            },
            Instruction::ComputeAssetData(compute_args) => {
                let ghost c = compute_args@;
                proof {
                    assert(instruction@ == InstrView::ComputeAssetData(c));
                }
                match actual_compute(&self.asset_store, compute_args) {
                    Some(outputs) => {
                        proof {
                            assert(compute_ready(c, old(self).store()));
                            assert(instr_completable(instruction@, old(self).store()));
                            assert(outputs@ == outputs_map(
                                c.outputs,
                                hash_chain(
                                    needed_words(old(self).store(), c),
                                    c.outputs.len() as nat,
                                ),
                                c.outputs.len() as nat,
                            ));
                        }
                        self.asset_store.merge_from(outputs);
                        (InsExecResult::Complete { added_assets_to_store: true }, None)
                    },
                    None => {
                        proof {
                            assert(!compute_ready(c, old(self).store()));
                            assert(!instr_completable(instruction@, old(self).store()));
                        }
                        (InsExecResult::Incomplete, None)
                    },
                }
            },
        }
    }
}

/// The views of an instruction list.
pub open spec fn instr_views(s: Seq<Instruction>) -> Seq<InstrView> {
    s.map_values(|i: Instruction| i@)
}

proof fn lemma_instr_views_remove(s: Seq<Instruction>, i: int)
    requires
        0 <= i < s.len(),
    ensures
        instr_views(s.remove(i)) == instr_views(s).remove(i),
{
    assert(instr_views(s.remove(i)) =~= instr_views(s).remove(i));
}

/// The todo list holds an acquire of `a` from `src`.
pub open spec fn todo_has_acquire(todo: Seq<InstrView>, a: AssetId, src: SiteId) -> bool {
    exists|j: int|
        0 <= j < todo.len() && todo[j] == (InstrView::AcquireAssetFrom {
            asset_id: a,
            site_id: src,
        })
}

/// The todo list holds a send of `a` to `dest`.
pub open spec fn todo_has_send(todo: Seq<InstrView>, a: AssetId, dest: SiteId) -> bool {
    exists|j: int|
        0 <= j < todo.len() && todo[j] == (InstrView::SendAssetTo { asset_id: a, site_id: dest })
}

/// The todo list holds a computation that outputs `a`.
pub open spec fn todo_has_compute_output(todo: Seq<InstrView>, a: AssetId) -> bool {
    exists|j: int|
        0 <= j < todo.len() && ((#[trigger] todo[j]) matches InstrView::ComputeAssetData(c)
            && c.outputs.contains(a))
}

/// A site: its private engine state plus the instruction multiset it still
/// has to complete. The caller runs the transport: it hands received
/// envelopes to `handle_message` and sends what `run_progress` and
/// `handle_message` emit.
pub struct Site {
    inner: SiteInner,
    todo_instructions: Vec<Instruction>,
}

impl Site {
    pub closed spec fn wf(&self) -> bool {
        self.inner.wf()
    }

    pub closed spec fn store(&self) -> Map<AssetId, AssetData> {
        self.inner.store()
    }

    pub closed spec fn last_requested(&self) -> Map<AssetId, u64> {
        self.inner.last_requested()
    }

    pub closed spec fn id(&self) -> SiteId {
        self.inner.id()
    }

    pub closed spec fn todo(&self) -> Seq<InstrView> {
        instr_views(self.todo_instructions@)
    }
}

/// Every store entry was inherited unchanged from `pre`, or is the output
/// of a computation that was pending in `pre` (I1: an asset id maps to one
/// logical value unless a computation legitimately writes it).
pub open spec fn store_from(pre: Site, store: Map<AssetId, AssetData>) -> bool {
    forall|a: AssetId|
        #[trigger] store.contains_key(a) ==> (pre.store().contains_key(a) && store[a]
            == pre.store()[a]) || todo_has_compute_output(pre.todo(), a)
}

/// What each message leaving the progress phase guarantees, relative to the
/// state `pre` the phase started from: it is signed by the site; a request
/// names a missing asset of a pending acquire, addressed to that acquire's
/// source, and respects the rate limit; asset data answers a pending send
/// with the stored (or legitimately computed) value.
pub open spec fn progress_msg_sound(pre: Site, m: Outgoing, now: u64) -> bool {
    &&& signed_by(m.envelope, pre.id())
    &&& match m.envelope.msg {
        Msg::AssetDataRequest { asset_id } => {
            &&& !pre.store().contains_key(asset_id)
            &&& todo_has_acquire(pre.todo(), asset_id, m.dest)
            &&& may_request(pre.last_requested(), asset_id, now)
        },
        Msg::AssetData { asset_id, asset_data } => {
            &&& todo_has_send(pre.todo(), asset_id, m.dest)
            &&& ((pre.store().contains_key(asset_id) && pre.store()[asset_id] == asset_data)
                || todo_has_compute_output(pre.todo(), asset_id))
        },
    }
}

/// The relation the progress phase maintains between its starting state
/// `pre` and the current state and emitted messages: identity and
/// well-formedness are kept; the store only grows, by inherited or computed
/// entries; the todo multiset only shrinks; request timers move only to
/// `now`; every emitted message is sound, and a request for an asset leaves
/// its timer at `now`.
pub open spec fn progress_frame(pre: Site, cur: Site, outv: Seq<Outgoing>, now: u64) -> bool {
    &&& cur.wf()
    &&& cur.id() == pre.id()
    &&& forall|a: AssetId|
        pre.store().contains_key(a) ==> #[trigger] cur.store().contains_key(a)
    &&& store_from(pre, cur.store())
    &&& forall|iv: InstrView|
        #[trigger] cur.todo().to_multiset().count(iv) <= pre.todo().to_multiset().count(iv)
    &&& forall|x: AssetId|
        pre.last_requested().contains_key(x) ==> #[trigger] cur.last_requested().contains_key(x)
    &&& forall|x: AssetId|
        #[trigger] cur.last_requested().contains_key(x) ==> ((pre.last_requested().contains_key(x)
            && cur.last_requested()[x] == pre.last_requested()[x]) || cur.last_requested()[x]
            == now)
    &&& forall|k: int| 0 <= k < outv.len() ==> progress_msg_sound(pre, #[trigger] outv[k], now)
    &&& forall|k: int|
        0 <= k < outv.len() ==> ((#[trigger] outv[k]).envelope.msg matches Msg::AssetDataRequest {
            asset_id,
        } ==> cur.last_requested().contains_key(asset_id) && cur.last_requested()[asset_id]
            == now)
}

/// Every pending acquire of a still-missing asset has a request timer less
/// than one period old (invariant I2 of the protocol).
pub open spec fn acquires_covered(todo: Seq<InstrView>, lr: Map<AssetId, u64>, now: u64) -> bool {
    forall|j: int|
        0 <= j < todo.len() ==> ((#[trigger] todo[j]) matches InstrView::AcquireAssetFrom {
            asset_id,
            site_id,
        } ==> lr.contains_key(asset_id) && now < lr[asset_id] + REQUEST_PERIOD_MS)
}

impl Site {
    /// A fresh site with the given 32-byte signing seed: empty store, empty
    /// todo list, no requests outstanding.
    pub fn new(secret_key: Vec<u8>) -> (r: Self)
        requires
            secret_key@.len() == 32,
        ensures
            r.wf(),
            r.id()@ == public_key_of(secret_key@),
            r.store() == Map::<AssetId, AssetData>::empty(),
            r.last_requested() == Map::<AssetId, u64>::empty(),
            r.todo() == Seq::<InstrView>::empty(),
    {
        let site_id = derive_public_key(&secret_key);
        let r = Site {
            inner: SiteInner {
                secret_key,
                site_id,
                asset_store: VecMap::new(),
                last_requested_at: VecMap::new(),
            },
            todo_instructions: Vec::new(),
        };
        proof {
            assert(r.todo() =~= Seq::<InstrView>::empty());
        }
        r
    }

    /// The site's identity: its public key.
    pub fn site_id(&self) -> (r: SiteId)
        ensures
            r == self.id(),
    {
        self.inner.site_id
    }

    /// Add one instruction to the todo multiset.
    pub fn give_instruction(&mut self, instruction: Instruction)
        requires
            old(self).wf(),
        ensures
            final(self).wf(),
            final(self).id() == old(self).id(),
            final(self).todo() == old(self).todo().push(instruction@),
            final(self).store() == old(self).store(),
            final(self).last_requested() == old(self).last_requested(),
    {
        let ghost v = instruction@;
        self.todo_instructions.push(instruction);
        proof {
            assert(self.todo() =~= old(self).todo().push(v));
        }
    }

    /// Seed the store with an asset.
    pub fn give_asset(&mut self, asset_id: AssetId, data: AssetData)
        requires
            old(self).wf(),
        ensures
            final(self).wf(),
            final(self).id() == old(self).id(),
            final(self).store() == old(self).store().insert(asset_id, data),
            final(self).todo() == old(self).todo(),
            final(self).last_requested() == old(self).last_requested(),
    {
        self.inner.asset_store.insert(asset_id, data);
    }

    /// Read an asset back out of the store.
    pub fn get_asset(&self, asset_id: AssetId) -> (r: Option<AssetData>)
        requires
            self.wf(),
        ensures
            match r {
                Some(d) => self.store().contains_key(asset_id) && d == self.store()[asset_id],
                None => !self.store().contains_key(asset_id),
            },
    {
        self.inner.asset_store.get(asset_id)
    }

    /// How many instructions remain.
    pub fn todo_len(&self) -> (r: usize)
        ensures
            r == self.todo().len(),
    {
        self.todo_instructions.len()
    }

    /// The progress phase: repeatedly try to complete every pending
    /// instruction, restarting the scan whenever a computation enlarged the
    /// store, until a full pass completes nothing. Returns the signed
    /// messages to send.
    ///
    /// On return nothing left in the todo list is completable, every pending
    /// acquire of a missing asset has a request timer less than one period
    /// old, and the rate limit holds: a request leaves only when the
    /// previous timer is a full period old (`progress_msg_sound`), it resets
    /// the timer to `now`, and no two requests of one call name the same
    /// asset. Every removal is tied to its effect (`progress_effects`): a
    /// send leaves the todo multiset with exactly one matching asset-data
    /// message emitted, an acquire only once its asset is in the store, a
    /// computation only with every output folded into the store, and a
    /// timer moves only alongside its request.
    pub fn run_progress(&mut self, now: u64) -> (out: Vec<Outgoing>)
        requires
            old(self).wf(),
        ensures
            progress_frame(*old(self), *final(self), out@, now),
            progress_effects(*old(self), *final(self), out@, now),
            forall|j: int|
                0 <= j < final(self).todo().len() ==> !instr_completable(
                    #[trigger] final(self).todo()[j],
                    final(self).store(),
                ),
            acquires_covered(final(self).todo(), final(self).last_requested(), now),
            requests_unique(out@),
    {
        let mut out: Vec<Outgoing> = Vec::new();
        let ghost pre = *self;
        proof {
            assert(progress_frame(pre, *self, out@, now));
            assert(progress_effects(pre, *self, out@, now));
        }
        loop
            invariant
                self.wf(),
                pre == *old(self),
                progress_frame(pre, *self, out@, now),
                progress_effects(pre, *self, out@, now),
                requests_unique(out@),
            decreases self.todo_instructions@.len(),
        {
            let ghost len0 = self.todo_instructions@.len();
            let ghost store0 = self.store();
            let mut restart = false;
            let mut i: usize = 0;
            while !restart && i < self.todo_instructions.len()
                invariant
                    self.wf(),
                    pre == *old(self),
                    progress_frame(pre, *self, out@, now),
                    progress_effects(pre, *self, out@, now),
                    requests_unique(out@),
                    0 <= i <= self.todo_instructions@.len(),
                    self.todo_instructions@.len() <= len0,
                    restart ==> self.todo_instructions@.len() < len0,
                    !restart ==> self.store() == store0,
                    !restart ==> forall|j: int|
                        0 <= j < i ==> !instr_completable(#[trigger] self.todo()[j], store0),
                    !restart ==> forall|j: int|
                        0 <= j < i ==> ((#[trigger] self.todo()[j]) matches
                        InstrView::AcquireAssetFrom { asset_id, site_id }
                            ==> self.last_requested().contains_key(asset_id) && now
                            < self.last_requested()[asset_id] + REQUEST_PERIOD_MS),
                decreases self.todo_instructions@.len() - i,
            {
                let ghost cur0 = *self;
                let ghost out0 = out@;
                let (res, msg) = self.inner.try_complete(&self.todo_instructions[i], now);
                let ghost iv = cur0.todo()[i as int];
                proof {
                    assert(self.todo() == cur0.todo());
                    assert(cur0.todo()[i as int] == iv);
                    assert(cur0.todo().contains(iv));
                    lemma_count_member(cur0.todo(), pre.todo(), iv);
                    match iv {
                        InstrView::AcquireAssetFrom { asset_id, site_id } => {
                            if !cur0.store().contains_key(asset_id) && may_request(
                                cur0.last_requested(),
                                asset_id,
                                now,
                            ) {
                                lemma_frame_lr_insert(pre, cur0, *self, out0, asset_id, now);
                            } else {
                                lemma_frame_same(pre, cur0, *self, out0, now);
                            }
                        },
                        InstrView::SendAssetTo { asset_id, site_id } => {
                            lemma_frame_same(pre, cur0, *self, out0, now);
                        },
                        InstrView::ComputeAssetData(c) => {
                            if compute_ready(c, cur0.store()) {
                                lemma_frame_store_union(
                                    pre,
                                    cur0,
                                    *self,
                                    out0,
                                    c,
                                    hash_chain(
                                        needed_words(cur0.store(), c),
                                        c.outputs.len() as nat,
                                    ),
                                    now,
                                );
                            } else {
                                lemma_frame_same(pre, cur0, *self, out0, now);
                            }
                        },
                    }
                }
                match (res, msg) {
                    (InsExecResult::Incomplete, Some(m)) => {
                        let ghost gm = m;
                        proof {
                            match iv {
                                InstrView::AcquireAssetFrom { asset_id, site_id } => {
                                    assert(!cur0.store().contains_key(asset_id));
                                    assert(!pre.store().contains_key(asset_id));
                                    lemma_member_has_acquire(pre.todo(), iv, asset_id, site_id);
                                    lemma_may_request_pre(pre, cur0, out0, asset_id, now);
                                    assert(progress_msg_sound(pre, m, now));
                                    lemma_requests_unique_push(pre, cur0, out0, m, now);
                                },
                                InstrView::SendAssetTo { asset_id, site_id } => {
                                    assert(false);
                                },
                                InstrView::ComputeAssetData(c) => {
                                    assert(false);
                                },
                            }
                        }
                        out.push(m);
                        proof {
                            lemma_frame_out_push(pre, *self, out0, gm, now);
                            match iv {
                                InstrView::AcquireAssetFrom { asset_id, site_id } => {
                                    lemma_effects_request(
                                        pre,
                                        cur0,
                                        *self,
                                        out0,
                                        gm,
                                        asset_id,
                                        now,
                                    );
                                    assert(!instr_completable(iv, store0));
                                    assert(self.last_requested()[asset_id] == now);
                                },
                                _ => {},
                            }
                            assert forall|j: int|
                                0 <= j < i + 1 implies ((#[trigger] self.todo()[j]) matches
                            InstrView::AcquireAssetFrom { asset_id, site_id }
                                ==> self.last_requested().contains_key(asset_id) && now
                                < self.last_requested()[asset_id] + REQUEST_PERIOD_MS) by {
                                if j < i {
                                    match self.todo()[j] {
                                        InstrView::AcquireAssetFrom { asset_id: b, site_id: sb } => {
                                            let lr0 = cur0.last_requested();
                                            if self.last_requested()[b] != lr0[b] {
                                                assert(self.last_requested()[b] == now);
                                            }
                                        },
                                        _ => {},
                                    }
                                }
                            }
                        }
                        i = i + 1;
                    },
                    (InsExecResult::Incomplete, None) => {
                        proof {
                            lemma_effects_same(pre, cur0, *self, out@, now);
                            match iv {
                                InstrView::AcquireAssetFrom { asset_id, site_id } => {
                                    assert(!cur0.store().contains_key(asset_id));
                                    assert(!instr_completable(iv, store0));
                                    assert(cur0.last_requested().contains_key(asset_id));
                                    assert(now < cur0.last_requested()[asset_id]
                                        + REQUEST_PERIOD_MS);
                                    assert(self.last_requested().contains_key(asset_id) && now
                                        < self.last_requested()[asset_id] + REQUEST_PERIOD_MS);
                                },
                                InstrView::SendAssetTo { asset_id, site_id } => {
                                    assert(!instr_completable(iv, store0));
                                },
                                InstrView::ComputeAssetData(c) => {
                                    assert(!compute_ready(c, store0));
                                    assert(!instr_completable(iv, store0));
                                },
                            }
                            assert forall|j: int|
                                0 <= j < i + 1 implies ((#[trigger] self.todo()[j]) matches
                            InstrView::AcquireAssetFrom { asset_id, site_id }
                                ==> self.last_requested().contains_key(asset_id) && now
                                < self.last_requested()[asset_id] + REQUEST_PERIOD_MS) by {
                                if j < i {
                                    match self.todo()[j] {
                                        InstrView::AcquireAssetFrom { asset_id: b, site_id: sb } => {
                                            let lr0 = cur0.last_requested();
                                            if self.last_requested()[b] != lr0[b] {
                                                assert(self.last_requested()[b] == now);
                                            }
                                        },
                                        _ => {},
                                    }
                                }
                            }
                        }
                        i = i + 1;
                    },
                    (InsExecResult::Complete { added_assets_to_store }, Some(m)) => {
                        let ghost gm = m;
                        proof {
                            match iv {
                                InstrView::SendAssetTo { asset_id, site_id } => {
                                    lemma_member_has_send(pre.todo(), iv, asset_id, site_id);
                                    assert(cur0.store().contains_key(asset_id));
                                    assert(progress_msg_sound(pre, m, now));
                                    lemma_requests_unique_push(pre, cur0, out0, m, now);
                                },
                                InstrView::AcquireAssetFrom { asset_id, site_id } => {
                                    assert(false);
                                },
                                InstrView::ComputeAssetData(c) => {
                                    assert(false);
                                },
                            }
                        }
                        out.push(m);
                        proof {
                            lemma_frame_out_push(pre, *self, out0, gm, now);
                        }
                        let ghost cur1 = *self;
                        self.todo_instructions.remove(i);
                        proof {
                            lemma_instr_views_remove(cur1.todo_instructions@, i as int);
                            lemma_frame_todo_remove(pre, cur1, *self, out@, now, i as int);
                            match iv {
                                InstrView::SendAssetTo { asset_id, site_id } => {
                                    assert(is_data_for(gm, asset_id, site_id));
                                    lemma_effects_send_done(
                                        pre,
                                        cur0,
                                        *self,
                                        out0,
                                        gm,
                                        now,
                                        asset_id,
                                        site_id,
                                        i as int,
                                    );
                                },
                                _ => {},
                            }
                            assert forall|j: int|
                                0 <= j < i implies self.todo()[j] == cur1.todo()[j] by {}
                        }
                        if added_assets_to_store {
                            restart = true;
                        }
                    },
                    (InsExecResult::Complete { added_assets_to_store }, None) => {
                        let ghost cur1 = *self;
                        self.todo_instructions.remove(i);
                        proof {
                            lemma_instr_views_remove(cur1.todo_instructions@, i as int);
                            lemma_frame_todo_remove(pre, cur1, *self, out@, now, i as int);
                            match iv {
                                InstrView::AcquireAssetFrom { asset_id, site_id } => {
                                    assert(cur0.store().contains_key(asset_id));
                                    lemma_effects_acquire_done(
                                        pre,
                                        cur0,
                                        *self,
                                        out@,
                                        now,
                                        asset_id,
                                        site_id,
                                        i as int,
                                    );
                                },
                                InstrView::ComputeAssetData(c) => {
                                    lemma_effects_compute_done(
                                        pre,
                                        cur0,
                                        *self,
                                        out@,
                                        now,
                                        c,
                                        hash_chain(
                                            needed_words(cur0.store(), c),
                                            c.outputs.len() as nat,
                                        ),
                                        i as int,
                                    );
                                },
                                InstrView::SendAssetTo { asset_id, site_id } => {
                                    assert(false);
                                },
                            }
                            assert forall|j: int|
                                0 <= j < i implies self.todo()[j] == cur1.todo()[j] by {}
                        }
                        if added_assets_to_store {
                            restart = true;
                        }
                    },
                }
            }
            if !restart {
                return out;
            }
        }
    }

    /// The receive phase for one inbound envelope. A bad signature changes
    /// nothing and is reported (the message is dropped). A valid request is
    /// answered at once when the asset is here, else queued as a pending
    /// send. Valid asset data clears the request timer and enters the store;
    /// delivering data the store already holds is a no-op on the store.
    pub fn handle_message(&mut self, envelope: SignedMsg) -> (r: (RecvOutcome, Option<Outgoing>))
        requires
            old(self).wf(),
        ensures
            final(self).wf(),
            final(self).id() == old(self).id(),
            (r.0 == RecvOutcome::BadSignature) <==> !sig_verifies(
                envelope.sender_public_key@,
                spec_encode_msg(envelope.msg),
                envelope.signature@,
            ),
            r.0 == RecvOutcome::BadSignature ==> {
                &&& r.1 is None
                &&& final(self).store() == old(self).store()
                &&& final(self).todo() == old(self).todo()
                &&& final(self).last_requested() == old(self).last_requested()
            },
            r.0 != RecvOutcome::BadSignature ==> (envelope.msg matches Msg::AssetDataRequest {
                asset_id,
            } ==> (old(self).store().contains_key(asset_id) ==> {
                &&& r.0 == RecvOutcome::Replied
                &&& (r.1 matches Some(m) && m.dest == envelope.sender_public_key && m.envelope.msg
                    == (Msg::AssetData {
                    asset_id,
                    asset_data: old(self).store()[asset_id],
                }) && signed_by(m.envelope, old(self).id()))
                &&& final(self).store() == old(self).store()
                &&& final(self).todo() == old(self).todo()
                &&& final(self).last_requested() == old(self).last_requested()
            })),
            r.0 != RecvOutcome::BadSignature ==> (envelope.msg matches Msg::AssetDataRequest {
                asset_id,
            } ==> (!old(self).store().contains_key(asset_id) ==> {
                &&& r.0 == RecvOutcome::QueuedSend
                &&& r.1 is None
                &&& final(self).todo() == old(self).todo().push(
                    InstrView::SendAssetTo { asset_id, site_id: envelope.sender_public_key },
                )
                &&& final(self).store() == old(self).store()
                &&& final(self).last_requested() == old(self).last_requested()
            })),
            r.0 != RecvOutcome::BadSignature ==> (envelope.msg matches Msg::AssetData {
                asset_id,
                asset_data,
            } ==> {
                &&& r.0 == RecvOutcome::StoredData
                &&& r.1 is None
                &&& final(self).store() == old(self).store().insert(asset_id, asset_data)
                &&& final(self).todo() == old(self).todo()
                &&& final(self).last_requested() == old(self).last_requested().remove(asset_id)
            }),
            r.0 != RecvOutcome::BadSignature ==> (envelope.msg matches Msg::AssetData {
                asset_id,
                asset_data,
            } ==> (old(self).store().contains_key(asset_id) && old(self).store()[asset_id]
                == asset_data ==> final(self).store() == old(self).store())),
    {
        if !envelope.verify() {
            return (RecvOutcome::BadSignature, None);
        }
        match envelope.msg {
            Msg::AssetDataRequest { asset_id } => {
                match self.inner.asset_store.get(asset_id) {
                    Some(asset_data) => {
                        let msg = Msg::AssetData { asset_id, asset_data };
                        let m = self.inner.make_outgoing(envelope.sender_public_key, msg);
                        (RecvOutcome::Replied, Some(m))
                    },
                    None => {
                        let ghost todo0 = self.todo();
                        self.todo_instructions.push(
                            Instruction::SendAssetTo {
                                asset_id,
                                site_id: envelope.sender_public_key,
                            },
                        );
                        proof {
                            assert(self.todo() =~= todo0.push(
                                InstrView::SendAssetTo {
                                    asset_id,
                                    site_id: envelope.sender_public_key,
                                },
                            ));
                        }
                        (RecvOutcome::QueuedSend, None)
                    },
                }
            },
            Msg::AssetData { asset_id, asset_data } => {
                self.inner.last_requested_at.remove(asset_id);
                let ghost store0 = self.store();
                self.inner.asset_store.insert(asset_id, asset_data);
                proof {
                    if store0.contains_key(asset_id) && store0[asset_id] == asset_data {
                        assert(self.store() =~= store0);
                    }
                }
                (RecvOutcome::StoredData, None)
            },
        }
    }
}

/// The outcome of handling one received envelope.
#[derive(Clone, Copy, PartialEq, Eq, Structural, Debug)]
pub enum RecvOutcome {
    /// The signature did not verify; the message was dropped.
    BadSignature,
    /// A request was answered immediately with the stored asset.
    Replied,
    /// A request for an asset not yet here became a pending send.
    QueuedSend,
    /// Asset data entered the store.
    StoredData,
}

/// No two of the emitted messages request the same asset.
pub open spec fn requests_unique(outv: Seq<Outgoing>) -> bool {
    forall|k1: int, k2: int|
        0 <= k1 < outv.len() && 0 <= k2 < outv.len() && k1 != k2 ==> !((
        #[trigger] outv[k1]).envelope.msg matches Msg::AssetDataRequest { asset_id: a1 } && ((
        #[trigger] outv[k2]).envelope.msg matches Msg::AssetDataRequest { asset_id: a2 } && a1
            == a2))
}

/// Is `m` an asset-data message for asset `a` addressed to site `d`?
pub open spec fn is_data_for(m: Outgoing, a: AssetId, d: SiteId) -> bool {
    m.dest == d && (m.envelope.msg matches Msg::AssetData { asset_id, asset_data } && asset_id
        == a)
}

/// How many of the emitted messages carry asset `a` to site `d`.
pub open spec fn sent_data_count(outv: Seq<Outgoing>, a: AssetId, d: SiteId) -> nat
    decreases outv.len(),
{
    if outv.len() == 0 {
        0
    } else {
        sent_data_count(outv.drop_last(), a, d) + (if is_data_for(outv.last(), a, d) {
            1nat
        } else {
            0nat
        })
    }
}

/// Some emitted message requests asset `a`.
pub open spec fn request_emitted(outv: Seq<Outgoing>, a: AssetId) -> bool {
    exists|k: int|
        0 <= k < outv.len() && (#[trigger] outv[k]).envelope.msg == (Msg::AssetDataRequest {
            asset_id: a,
        })
}

/// Removals and timer updates are tied to their effects, relative to the
/// state `pre` the progress phase started from: every send instruction that
/// left the todo multiset emitted exactly one matching asset-data message;
/// an acquire left only with its asset in the store; a computation left
/// only with every output in the store; and a request timer moved to `now`
/// only alongside an emitted request for that asset.
pub open spec fn progress_effects(pre: Site, cur: Site, outv: Seq<Outgoing>, now: u64) -> bool {
    &&& forall|a: AssetId, d: SiteId|
        #[trigger] sent_data_count(outv, a, d) + cur.todo().to_multiset().count(
            InstrView::SendAssetTo { asset_id: a, site_id: d },
        ) == pre.todo().to_multiset().count(InstrView::SendAssetTo { asset_id: a, site_id: d })
    &&& forall|a: AssetId, s: SiteId|
        #[trigger] cur.todo().to_multiset().count(
            InstrView::AcquireAssetFrom { asset_id: a, site_id: s },
        ) < pre.todo().to_multiset().count(InstrView::AcquireAssetFrom { asset_id: a, site_id: s })
            ==> cur.store().contains_key(a)
    &&& forall|c: ComputeArgsView|
        #[trigger] cur.todo().to_multiset().count(InstrView::ComputeAssetData(c))
            < pre.todo().to_multiset().count(InstrView::ComputeAssetData(c)) ==> forall|m: int|
            0 <= m < c.outputs.len() ==> cur.store().contains_key(#[trigger] c.outputs[m])
    &&& forall|x: AssetId|
        #[trigger] cur.last_requested().contains_key(x) && !(pre.last_requested().contains_key(x)
            && cur.last_requested()[x] == pre.last_requested()[x]) ==> request_emitted(outv, x)
}

/// The frame depends only on the observable parts of the current state.
proof fn lemma_frame_same(pre: Site, cur0: Site, cur1: Site, outv: Seq<Outgoing>, now: u64)
    requires
        progress_frame(pre, cur0, outv, now),
        cur1.wf(),
        cur1.id() == cur0.id(),
        cur1.store() == cur0.store(),
        cur1.last_requested() == cur0.last_requested(),
        cur1.todo() == cur0.todo(),
    ensures
        progress_frame(pre, cur1, outv, now),
{
}

/// Setting one request timer to `now` keeps the frame.
proof fn lemma_frame_lr_insert(
    pre: Site,
    cur0: Site,
    cur1: Site,
    outv: Seq<Outgoing>,
    a: AssetId,
    now: u64,
)
    requires
        progress_frame(pre, cur0, outv, now),
        cur1.wf(),
        cur1.id() == cur0.id(),
        cur1.store() == cur0.store(),
        cur1.todo() == cur0.todo(),
        cur1.last_requested() == cur0.last_requested().insert(a, now),
    ensures
        progress_frame(pre, cur1, outv, now),
{
    assert forall|x: AssetId| #[trigger] cur1.last_requested().contains_key(x) implies ((
    pre.last_requested().contains_key(x) && cur1.last_requested()[x] == pre.last_requested()[x])
        || cur1.last_requested()[x] == now) by {
        if x != a {
            assert(cur1.last_requested()[x] == cur0.last_requested()[x]);
        }
    }
}

proof fn lemma_outputs_map_keys(outs: Seq<AssetId>, vals: Seq<u64>, k: nat)
    ensures
        forall|x: AssetId|
            #[trigger] outputs_map(outs, vals, k).contains_key(x) ==> exists|m: int|
                0 <= m < k && outs[m] == x,
    decreases k,
{
    if k > 0 {
        lemma_outputs_map_keys(outs, vals, (k - 1) as nat);
        assert forall|x: AssetId| #[trigger] outputs_map(outs, vals, k).contains_key(x) implies
            exists|m: int| 0 <= m < k && outs[m] == x by {
            if x == outs[k - 1] {
                assert(0 <= k - 1 < k && outs[k - 1] == x);
            } else {
                assert(outputs_map(outs, vals, (k - 1) as nat).contains_key(x));
            }
        }
    }
}

/// Folding the outputs of a pending computation into the store keeps the
/// frame: the store grows by legitimately computed entries only.
proof fn lemma_frame_store_union(
    pre: Site,
    cur0: Site,
    cur1: Site,
    outv: Seq<Outgoing>,
    c: ComputeArgsView,
    vals: Seq<u64>,
    now: u64,
)
    requires
        progress_frame(pre, cur0, outv, now),
        cur1.wf(),
        cur1.id() == cur0.id(),
        cur1.todo() == cur0.todo(),
        cur1.last_requested() == cur0.last_requested(),
        cur1.store() == cur0.store().union_prefer_right(
            outputs_map(c.outputs, vals, c.outputs.len() as nat),
        ),
        pre.todo().contains(InstrView::ComputeAssetData(c)),
    ensures
        progress_frame(pre, cur1, outv, now),
{
    let om = outputs_map(c.outputs, vals, c.outputs.len() as nat);
    lemma_outputs_map_keys(c.outputs, vals, c.outputs.len() as nat);
    assert forall|a: AssetId| pre.store().contains_key(a) implies #[trigger] cur1.store()
        .contains_key(a) by {
        assert(cur0.store().contains_key(a));
    }
    assert forall|a: AssetId| #[trigger] cur1.store().contains_key(a) implies ((
    pre.store().contains_key(a) && cur1.store()[a] == pre.store()[a]) || todo_has_compute_output(
        pre.todo(),
        a,
    )) by {
        if om.contains_key(a) {
            let m = choose|m: int| 0 <= m < c.outputs.len() && c.outputs[m] == a;
            assert(c.outputs.contains(a));
            let j = choose|j: int|
                0 <= j < pre.todo().len() && pre.todo()[j] == InstrView::ComputeAssetData(c);
            assert((#[trigger] pre.todo()[j]) matches InstrView::ComputeAssetData(cc)
                && cc.outputs.contains(a));
            assert(todo_has_compute_output(pre.todo(), a));
        } else {
            assert(cur1.store()[a] == cur0.store()[a]);
            assert(cur0.store().contains_key(a));
        }
    }
}

/// An element of a sub-multiset list is an element of the larger list.
proof fn lemma_count_member(cur: Seq<InstrView>, pre: Seq<InstrView>, iv: InstrView)
    requires
        forall|x: InstrView|
            #[trigger] cur.to_multiset().count(x) <= pre.to_multiset().count(x),
        cur.contains(iv),
    ensures
        pre.contains(iv),
{
    assert(cur.to_multiset().count(iv) > 0);
    assert(pre.to_multiset().count(iv) > 0);
}

proof fn lemma_member_has_acquire(todo: Seq<InstrView>, iv: InstrView, a: AssetId, src: SiteId)
    requires
        todo.contains(iv),
        iv == (InstrView::AcquireAssetFrom { asset_id: a, site_id: src }),
    ensures
        todo_has_acquire(todo, a, src),
{
    let j = choose|j: int| 0 <= j < todo.len() && todo[j] == iv;
    assert(todo[j] == (InstrView::AcquireAssetFrom { asset_id: a, site_id: src }));
}

proof fn lemma_member_has_send(todo: Seq<InstrView>, iv: InstrView, a: AssetId, dest: SiteId)
    requires
        todo.contains(iv),
        iv == (InstrView::SendAssetTo { asset_id: a, site_id: dest }),
    ensures
        todo_has_send(todo, a, dest),
{
    let j = choose|j: int| 0 <= j < todo.len() && todo[j] == iv;
    assert(todo[j] == (InstrView::SendAssetTo { asset_id: a, site_id: dest }));
}

/// The rate limit seen from the phase's start: a request permitted against
/// the current timers was permitted against the starting timers, because a
/// timer only ever moves to `now` and a timer at `now` forbids requests.
proof fn lemma_may_request_pre(pre: Site, cur: Site, outv: Seq<Outgoing>, a: AssetId, now: u64)
    requires
        progress_frame(pre, cur, outv, now),
        may_request(cur.last_requested(), a, now),
    ensures
        may_request(pre.last_requested(), a, now),
{
    if pre.last_requested().contains_key(a) {
        assert(cur.last_requested().contains_key(a));
        assert(cur.last_requested()[a] + REQUEST_PERIOD_MS <= now);
        assert(cur.last_requested()[a] != now);
        assert(cur.last_requested()[a] == pre.last_requested()[a]);
    }
}

/// A fresh request never repeats an asset already requested this phase: an
/// earlier request left that asset's timer at `now`, which forbids another.
proof fn lemma_requests_unique_push(
    pre: Site,
    cur0: Site,
    out0: Seq<Outgoing>,
    m: Outgoing,
    now: u64,
)
    requires
        progress_frame(pre, cur0, out0, now),
        requests_unique(out0),
        m.envelope.msg matches Msg::AssetDataRequest { asset_id } ==> may_request(
            cur0.last_requested(),
            asset_id,
            now,
        ),
    ensures
        requests_unique(out0.push(m)),
{
    let outv = out0.push(m);
    assert forall|k1: int, k2: int|
        0 <= k1 < outv.len() && 0 <= k2 < outv.len() && k1 != k2 implies !((
    #[trigger] outv[k1]).envelope.msg matches Msg::AssetDataRequest { asset_id: a1 } && ((
    #[trigger] outv[k2]).envelope.msg matches Msg::AssetDataRequest { asset_id: a2 } && a1 == a2))
        by {
        if k1 < out0.len() && k2 < out0.len() {
            assert(outv[k1] == out0[k1] && outv[k2] == out0[k2]);
        } else {
            let ko = if k1 < out0.len() {
                k1
            } else {
                k2
            };
            if ko < out0.len() {
                assert(outv[ko] == out0[ko]);
                match (out0[ko].envelope.msg, m.envelope.msg) {
                    (
                        Msg::AssetDataRequest { asset_id: ao },
                        Msg::AssetDataRequest { asset_id: an },
                    ) => {
                        if ao == an {
                            assert(cur0.last_requested().contains_key(ao)
                                && cur0.last_requested()[ao] == now);
                            assert(!may_request(cur0.last_requested(), an, now));
                        }
                    },
                    _ => {},
                }
            }
        }
    }
}

/// Message soundness and timers survive appending a sound message.
proof fn lemma_frame_out_push(pre: Site, cur: Site, out0: Seq<Outgoing>, m: Outgoing, now: u64)
    requires
        progress_frame(pre, cur, out0, now),
        progress_msg_sound(pre, m, now),
        m.envelope.msg matches Msg::AssetDataRequest { asset_id } ==> cur.last_requested()
            .contains_key(asset_id) && cur.last_requested()[asset_id] == now,
    ensures
        progress_frame(pre, cur, out0.push(m), now),
{
    let outv = out0.push(m);
    assert forall|k: int| 0 <= k < outv.len() implies progress_msg_sound(
        pre,
        #[trigger] outv[k],
        now,
    ) by {
        if k < out0.len() {
            assert(outv[k] == out0[k]);
        } else {
            assert(outv[k] == m);
        }
    }
    assert forall|k: int|
        0 <= k < outv.len() implies ((#[trigger] outv[k]).envelope.msg matches
    Msg::AssetDataRequest { asset_id } ==> cur.last_requested().contains_key(asset_id)
        && cur.last_requested()[asset_id] == now) by {
        if k < out0.len() {
            assert(outv[k] == out0[k]);
        } else {
            assert(outv[k] == m);
        }
    }
}

/// Removing a completed instruction keeps the frame: the todo multiset only
/// shrinks further.
proof fn lemma_frame_todo_remove(
    pre: Site,
    cur0: Site,
    cur1: Site,
    outv: Seq<Outgoing>,
    now: u64,
    i: int,
)
    requires
        progress_frame(pre, cur0, outv, now),
        cur1.wf(),
        cur1.id() == cur0.id(),
        cur1.store() == cur0.store(),
        cur1.last_requested() == cur0.last_requested(),
        0 <= i < cur0.todo().len(),
        cur1.todo() == cur0.todo().remove(i),
    ensures
        progress_frame(pre, cur1, outv, now),
{
    assert forall|x: InstrView| #[trigger] cur1.todo().to_multiset().count(x) <= pre.todo()
        .to_multiset().count(x) by {
        assert(cur1.todo().to_multiset() =~= cur0.todo().to_multiset().remove(cur0.todo()[i]));
        assert(cur0.todo().to_multiset().count(x) <= pre.todo().to_multiset().count(x));
    }
}

/// One appended message changes one per-destination data count by one.
proof fn lemma_sent_count_push(outv: Seq<Outgoing>, m: Outgoing, a: AssetId, d: SiteId)
    ensures
        is_data_for(m, a, d) ==> sent_data_count(outv.push(m), a, d) == sent_data_count(outv, a, d)
            + 1,
        !is_data_for(m, a, d) ==> sent_data_count(outv.push(m), a, d) == sent_data_count(
            outv,
            a,
            d,
        ),
{
    assert(outv.push(m).drop_last() =~= outv);
    assert(outv.push(m).last() == m);
}

/// An emitted request stays emitted as the output grows.
proof fn lemma_request_emitted_push(outv: Seq<Outgoing>, m: Outgoing, a: AssetId)
    requires
        request_emitted(outv, a),
    ensures
        request_emitted(outv.push(m), a),
{
    let k = choose|k: int|
        0 <= k < outv.len() && (#[trigger] outv[k]).envelope.msg == (Msg::AssetDataRequest {
            asset_id: a,
        });
    assert(outv.push(m)[k] == outv[k]);
}

/// Unchanged observables and no new message keep the effects relation.
proof fn lemma_effects_same(pre: Site, cur0: Site, cur1: Site, outv: Seq<Outgoing>, now: u64)
    requires
        progress_effects(pre, cur0, outv, now),
        cur1.store() == cur0.store(),
        cur1.last_requested() == cur0.last_requested(),
        cur1.todo() == cur0.todo(),
    ensures
        progress_effects(pre, cur1, outv, now),
{
}

/// A fresh request keeps the effects relation: the only timer that moved is
/// the requested asset's, and its request is in the output.
proof fn lemma_effects_request(
    pre: Site,
    cur0: Site,
    cur1: Site,
    out0: Seq<Outgoing>,
    m: Outgoing,
    a: AssetId,
    now: u64,
)
    requires
        progress_effects(pre, cur0, out0, now),
        cur1.store() == cur0.store(),
        cur1.todo() == cur0.todo(),
        cur1.last_requested() == cur0.last_requested().insert(a, now),
        m.envelope.msg == (Msg::AssetDataRequest { asset_id: a }),
    ensures
        progress_effects(pre, cur1, out0.push(m), now),
{
    let outv = out0.push(m);
    assert forall|aa: AssetId, d: SiteId|
        #[trigger] sent_data_count(outv, aa, d) + cur1.todo().to_multiset().count(
            InstrView::SendAssetTo { asset_id: aa, site_id: d },
        ) == pre.todo().to_multiset().count(
        InstrView::SendAssetTo { asset_id: aa, site_id: d },
    ) by {
        lemma_sent_count_push(out0, m, aa, d);
        assert(!is_data_for(m, aa, d));
    }
    assert forall|x: AssetId|
        #[trigger] cur1.last_requested().contains_key(x) && !(pre.last_requested().contains_key(x)
            && cur1.last_requested()[x] == pre.last_requested()[x]) implies request_emitted(
        outv,
        x,
    ) by {
        if x == a {
            assert(outv[out0.len() as int] == m);
        } else {
            assert(cur1.last_requested()[x] == cur0.last_requested()[x]);
            assert(cur0.last_requested().contains_key(x));
            lemma_request_emitted_push(out0, m, x);
        }
    }
}

/// Removing a completed acquire keeps the effects relation: its asset is in
/// the store.
proof fn lemma_effects_acquire_done(
    pre: Site,
    cur0: Site,
    cur1: Site,
    outv: Seq<Outgoing>,
    now: u64,
    a: AssetId,
    s: SiteId,
    i: int,
)
    requires
        progress_effects(pre, cur0, outv, now),
        cur1.store() == cur0.store(),
        cur1.last_requested() == cur0.last_requested(),
        0 <= i < cur0.todo().len(),
        cur0.todo()[i] == (InstrView::AcquireAssetFrom { asset_id: a, site_id: s }),
        cur1.todo() == cur0.todo().remove(i),
        cur0.store().contains_key(a),
    ensures
        progress_effects(pre, cur1, outv, now),
{
    let iv = cur0.todo()[i];
    assert(cur1.todo().to_multiset() =~= cur0.todo().to_multiset().remove(iv));
    assert forall|aa: AssetId, ss: SiteId|
        #[trigger] cur1.todo().to_multiset().count(
            InstrView::AcquireAssetFrom { asset_id: aa, site_id: ss },
        ) < pre.todo().to_multiset().count(
            InstrView::AcquireAssetFrom { asset_id: aa, site_id: ss },
        ) implies cur1.store().contains_key(aa) by {
        let x = InstrView::AcquireAssetFrom { asset_id: aa, site_id: ss };
        if cur0.todo().to_multiset().count(x) < pre.todo().to_multiset().count(x) {
        } else {
            assert(x == iv);
        }
    }
}

/// Removing a completed send keeps the effects relation: exactly one
/// matching asset-data message left with it.
proof fn lemma_effects_send_done(
    pre: Site,
    cur0: Site,
    cur1: Site,
    out0: Seq<Outgoing>,
    m: Outgoing,
    now: u64,
    a: AssetId,
    d: SiteId,
    i: int,
)
    requires
        progress_effects(pre, cur0, out0, now),
        cur1.store() == cur0.store(),
        cur1.last_requested() == cur0.last_requested(),
        0 <= i < cur0.todo().len(),
        cur0.todo()[i] == (InstrView::SendAssetTo { asset_id: a, site_id: d }),
        cur1.todo() == cur0.todo().remove(i),
        is_data_for(m, a, d),
    ensures
        progress_effects(pre, cur1, out0.push(m), now),
{
    let outv = out0.push(m);
    let iv = cur0.todo()[i];
    assert(cur1.todo().to_multiset() =~= cur0.todo().to_multiset().remove(iv));
    assert forall|aa: AssetId, dd: SiteId|
        #[trigger] sent_data_count(outv, aa, dd) + cur1.todo().to_multiset().count(
            InstrView::SendAssetTo { asset_id: aa, site_id: dd },
        ) == pre.todo().to_multiset().count(
        InstrView::SendAssetTo { asset_id: aa, site_id: dd },
    ) by {
        lemma_sent_count_push(out0, m, aa, dd);
        let x = InstrView::SendAssetTo { asset_id: aa, site_id: dd };
        if aa == a && dd == d {
            assert(is_data_for(m, aa, dd));
            assert(x == iv);
            assert(cur1.todo().to_multiset().count(x) + 1 == cur0.todo().to_multiset().count(x));
        } else {
            assert(!is_data_for(m, aa, dd));
            assert(x != iv);
            assert(cur1.todo().to_multiset().count(x) == cur0.todo().to_multiset().count(x));
        }
    }
    assert forall|x: AssetId|
        #[trigger] cur1.last_requested().contains_key(x) && !(pre.last_requested().contains_key(x)
            && cur1.last_requested()[x] == pre.last_requested()[x]) implies request_emitted(
        outv,
        x,
    ) by {
        lemma_request_emitted_push(out0, m, x);
    }
}

/// Every output of the first `k` chained values is a key of the produced
/// store fragment.
proof fn lemma_outputs_map_covers(outs: Seq<AssetId>, vals: Seq<u64>, k: nat)
    ensures
        forall|m: int| 0 <= m < k ==> outputs_map(outs, vals, k).contains_key(#[trigger] outs[m]),
    decreases k,
{
    if k > 0 {
        lemma_outputs_map_covers(outs, vals, (k - 1) as nat);
    }
}

/// Removing a completed computation keeps the effects relation: its outputs
/// entered the store, which only grows.
proof fn lemma_effects_compute_done(
    pre: Site,
    cur0: Site,
    cur1: Site,
    outv: Seq<Outgoing>,
    now: u64,
    c: ComputeArgsView,
    vals: Seq<u64>,
    i: int,
)
    requires
        progress_effects(pre, cur0, outv, now),
        cur1.last_requested() == cur0.last_requested(),
        0 <= i < cur0.todo().len(),
        cur0.todo()[i] == InstrView::ComputeAssetData(c),
        cur1.todo() == cur0.todo().remove(i),
        cur1.store() == cur0.store().union_prefer_right(
            outputs_map(c.outputs, vals, c.outputs.len() as nat),
        ),
    ensures
        progress_effects(pre, cur1, outv, now),
{
    let iv = cur0.todo()[i];
    assert(cur1.todo().to_multiset() =~= cur0.todo().to_multiset().remove(iv));
    lemma_outputs_map_covers(c.outputs, vals, c.outputs.len() as nat);
    assert forall|a: AssetId| cur0.store().contains_key(a) implies cur1.store().contains_key(
        a,
    ) by {}
    assert forall|cc: ComputeArgsView|
        #[trigger] cur1.todo().to_multiset().count(InstrView::ComputeAssetData(cc))
            < pre.todo().to_multiset().count(InstrView::ComputeAssetData(cc)) implies forall|
        m: int,
    |
        0 <= m < cc.outputs.len() ==> cur1.store().contains_key(#[trigger] cc.outputs[m]) by {
        let x = InstrView::ComputeAssetData(cc);
        if cur0.todo().to_multiset().count(x) < pre.todo().to_multiset().count(x) {
            assert forall|m: int| 0 <= m < cc.outputs.len() implies cur1.store().contains_key(
                #[trigger] cc.outputs[m],
            ) by {
                assert(cur0.store().contains_key(cc.outputs[m]));
            }
        } else {
            assert(x == iv);
            assert(cc == c);
            assert forall|m: int| 0 <= m < cc.outputs.len() implies cur1.store().contains_key(
                #[trigger] cc.outputs[m],
            ) by {
                assert(outputs_map(c.outputs, vals, c.outputs.len() as nat).contains_key(
                    c.outputs[m],
                ));
            }
        }
    }
}

} // verus!
