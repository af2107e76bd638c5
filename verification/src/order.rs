//! The register that the store keeps per key, and the deterministic
//! conflict-resolution order between registers.

use vstd::prelude::*;

verus! {

/// One versioned value: an opaque 64-bit payload together with the logical
/// write time (integer milliseconds) and the identity of the writer that
/// produced it.  The writer id is used only to break exact timestamp ties.
///
/// A register is immutable once constructed; an update builds a new register
/// that may or may not replace the stored one.
#[derive(Clone, Copy, PartialEq, Eq, Structural, Debug)]
pub struct Register {
    pub ts: i64,
    pub node_id: u16,
    pub value: u64,
}

/// The conflict-resolution order on (timestamp, writer id): the pair
/// `(a_ts, a_n)` beats `(b_ts, b_n)` when it carries the later timestamp,
/// with the larger writer id breaking an exact timestamp tie.
pub open spec fn spec_greater_at(a_ts: int, a_n: int, b_ts: int, b_n: int) -> bool {
    a_ts > b_ts || (a_ts == b_ts && a_n > b_n)
}

/// `a` wins over `b` under the conflict-resolution order.
pub open spec fn spec_greater(a: Register, b: Register) -> bool {
    spec_greater_at(a.ts as int, a.node_id as int, b.ts as int, b.node_id as int)
}

/// Reflexive closure of `spec_greater`: `a` wins over `b` or carries the
/// same timestamp and writer id.
pub open spec fn spec_ge(a: Register, b: Register) -> bool {
    a.ts > b.ts || (a.ts == b.ts && a.node_id >= b.node_id)
}

/// Decides whether an incoming register (timestamp `a_ts`, writer `a_n`)
/// wins over a stored one (timestamp `b_ts`, writer `b_n`).  Every
/// comparison between an incoming and an existing register goes through
/// this rule, which is what makes merging order-insensitive.
pub fn greater(a_ts: i64, a_n: u16, b_ts: i64, b_n: u16) -> (r: bool)
    ensures
        r == spec_greater_at(a_ts as int, a_n as int, b_ts as int, b_n as int),
{
    a_ts > b_ts || (a_ts == b_ts && a_n > b_n)
}

/// The conflict-resolution order is consistent with a strict total order:
/// it is irreflexive, asymmetric and transitive, and two registers that
/// neither beats share timestamp and writer id (they are equal but for the
/// payload).  Arrival order therefore never influences which of two
/// distinct versions a replica keeps.
pub proof fn lemma_greater_strict_total_order(a: Register, b: Register, c: Register)
    ensures
        !spec_greater(a, a),
        spec_greater(a, b) ==> !spec_greater(b, a),
        spec_greater(a, b) && spec_greater(b, c) ==> spec_greater(a, c),
        !spec_greater(a, b) && !spec_greater(b, a) ==> a.ts == b.ts && a.node_id == b.node_id,
{
}

} // verus!
