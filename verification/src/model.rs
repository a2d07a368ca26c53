//! Assets, computations and the per-site instruction vocabulary.

use vstd::prelude::*;

use crate::ids::AssetId;
use crate::ids::SiteId;

verus! {

/// An opaque asset payload; a single 64-bit word stands in for the bytes.
/// Two assets with the same bits are indistinguishable.
#[derive(Clone, Copy, PartialEq, Eq, Structural, Debug)]
pub struct AssetData {
    pub bits: u64,
}

/// A requested computation: ordered input assets, ordered output assets,
/// and the asset that acts as the program. The needed assets are the inputs
/// together with the program.
#[derive(Debug)]
pub struct ComputeArgs {
    pub inputs: Vec<AssetId>,
    pub outputs: Vec<AssetId>,
    pub compute_asset: AssetId,
}

/// The mathematical shape of a `ComputeArgs`.
#[verifier::ext_equal]
pub struct ComputeArgsView {
    pub inputs: Seq<AssetId>,
    pub outputs: Seq<AssetId>,
    pub compute_asset: AssetId,
}

impl ComputeArgsView {
    /// The assets a site must hold before it can run this computation.
    pub open spec fn needed(self) -> Seq<AssetId> {
        self.inputs.push(self.compute_asset)
    }
}

impl View for ComputeArgs {
    type V = ComputeArgsView;

    open spec fn view(&self) -> ComputeArgsView {
        ComputeArgsView {
            inputs: self.inputs@,
            outputs: self.outputs@,
            compute_asset: self.compute_asset,
        }
    }
}

impl ComputeArgs {
    /// The input assets followed by the compute asset.
    pub fn needed_assets(&self) -> (r: Vec<AssetId>)
        ensures
            r@ == self@.needed(),
    {
        let mut v: Vec<AssetId> = Vec::new();
        let mut i: usize = 0;
        while i < self.inputs.len()
            invariant
                0 <= i <= self.inputs@.len(),
                v@ == self.inputs@.take(i as int),
            decreases self.inputs@.len() - i,
        {
            v.push(self.inputs[i]);
            i = i + 1;
        }
        proof {
            assert(self.inputs@.take(self.inputs@.len() as int) =~= self.inputs@);
        }
        v.push(self.compute_asset);
        v
    }
}

/// A unit of work a site must perform. Within a site the instructions form
/// an unordered multiset; execution may reorder freely.
#[derive(Debug)]
pub enum Instruction {
    /// Push the named asset to a named peer.
    SendAssetTo { asset_id: AssetId, site_id: SiteId },
    /// Ensure the named asset is present locally; if not, pull it from the
    /// named peer.
    AcquireAssetFrom { asset_id: AssetId, site_id: SiteId },
    /// Run the computation locally once all needed assets are present.
    ComputeAssetData(ComputeArgs),
}

/// The mathematical shape of an `Instruction`.
#[verifier::ext_equal]
pub enum InstrView {
    SendAssetTo { asset_id: AssetId, site_id: SiteId },
    AcquireAssetFrom { asset_id: AssetId, site_id: SiteId },
    ComputeAssetData(ComputeArgsView),
}

impl View for Instruction {
    type V = InstrView;

    open spec fn view(&self) -> InstrView {
        match self {
            Instruction::SendAssetTo { asset_id, site_id } => InstrView::SendAssetTo {
                asset_id: *asset_id,
                site_id: *site_id,
            },
            Instruction::AcquireAssetFrom { asset_id, site_id } => InstrView::AcquireAssetFrom {
                asset_id: *asset_id,
                site_id: *site_id,
            },
            Instruction::ComputeAssetData(c) => InstrView::ComputeAssetData(c@),
        }
    }
}

} // verus!
