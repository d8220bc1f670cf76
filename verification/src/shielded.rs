//! The shielded side of a transfer as this core reads it: a content-addressed
//! reference to a shielded payload carried in the transaction body, the
//! payload's transparent bundle with its authorizing input addresses, its new
//! note commitments, and the verdict of the pool's cryptographic checks.
//! The cryptographic transaction format itself is outside this core.

use vstd::prelude::*;
use crate::addr::TAddr;

verus! {

/// A content hash identifying a shielded transaction payload embedded in the
/// transaction body.
#[derive(Clone, Copy, PartialEq, Eq, Structural, Hash, Debug)]
pub struct MaspTxId {
    pub digest: u64,
}

/// The transparent bundle of a shielded payload: its inputs carry the
/// transparent-pool addresses that authorize pool-balance movement.
#[derive(Clone, Debug)]
pub struct TransparentBundle {
    /// The authorizing transparent-pool address of each transparent input.
    pub vin: Vec<TAddr>,
}

/// A shielded transaction payload, reduced to what this core reads of it.
#[derive(Clone, Debug)]
pub struct ShieldedPayload {
    /// The payload's content hash, by which the transfer descriptor refers
    /// to it.
    pub id: MaspTxId,
    /// The transparent bundle, absent for a fully shielded payload.
    pub transparent_bundle: Option<TransparentBundle>,
    /// The note commitments that the payload appends to the commitment tree.
    pub commitments: Vec<u64>,
    /// The verdict of the pool adapter's cryptographic checks (proofs,
    /// nullifiers) on this payload; the checks themselves are outside this
    /// core.
    pub proofs_valid: bool,
}

/// The authorizing transparent-pool addresses claimed by a payload; empty
/// when it has no transparent bundle.
pub open spec fn vin_addresses(p: ShieldedPayload) -> Seq<TAddr> {
    match p.transparent_bundle {
        Option::Some(b) => b.vin@,
        Option::None => Seq::<TAddr>::empty(),
    }
}

/// A transaction body holding shielded sections, resolved by content hash.
#[derive(Clone, Debug)]
pub struct Tx {
    pub masp_sections: Vec<ShieldedPayload>,
}

/// A transaction as handed to transfer application.
#[derive(Clone, Debug)]
pub struct BatchedTx {
    pub tx: Tx,
}

/// The first section with the given content hash, if any.
pub open spec fn find_section(ss: Seq<ShieldedPayload>, id: MaspTxId) -> Option<ShieldedPayload>
    decreases ss.len(),
{
    if ss.len() == 0 {
        Option::None
    } else if ss.first().id == id {
        Option::Some(ss.first())
    } else {
        find_section(ss.drop_first(), id)
    }
}

/// Looking further into the sequence changes nothing while no section before
/// the cut matches.
proof fn lemma_find_section_skip(ss: Seq<ShieldedPayload>, id: MaspTxId, k: int)
    requires
        0 <= k <= ss.len(),
        forall|m: int| 0 <= m < k ==> (#[trigger] ss[m]).id != id,
    ensures
        find_section(ss, id) == find_section(ss.skip(k), id),
    decreases k,
{
    if k > 0 {
        assert(ss.first().id != id);
        assert(ss.len() > 0);
        lemma_find_section_skip(ss.drop_first(), id, k - 1);
        assert(ss.drop_first().skip(k - 1) =~= ss.skip(k));
    } else {
        assert(ss.skip(0) =~= ss);
    }
}

impl Tx {
    /// Resolve a shielded section by its content hash.
    pub fn get_masp_section(&self, id: &MaspTxId) -> (r: Option<&ShieldedPayload>)
        ensures
            match r {
                Some(p) => find_section(self.masp_sections@, *id) == Option::Some(*p),
                None => find_section(self.masp_sections@, *id) is None,
            },
    {
        let mut k: usize = 0;
        while k < self.masp_sections.len()
            invariant
                k <= self.masp_sections@.len(),
                forall|m: int| 0 <= m < k ==> (#[trigger] self.masp_sections@[m]).id != *id,
            decreases self.masp_sections@.len() - k,
        {
            if self.masp_sections[k].id == *id {
                proof {
                    lemma_find_section_skip(self.masp_sections@, *id, k as int);
                    assert(self.masp_sections@.skip(k as int).first() == self.masp_sections@[
                        k as int
                    ]);
                }
                return Some(&self.masp_sections[k]);
            }
            k += 1;
        }
        proof {
            lemma_find_section_skip(self.masp_sections@, *id, k as int);
            assert(self.masp_sections@.skip(k as int).len() == 0);
        }
        None
    }
}

} // verus!
