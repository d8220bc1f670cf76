//! Addresses of accounts and tokens, and the transparent-pool address that the
//! shielded pool derives from an account address.

use vstd::prelude::*;

verus! {

/// Opaque identifier of an account or a token.
///
/// An address is `internal` when it names a protocol-owned token: such tokens
/// have no self-contained validity predicate, so transfers touching them must
/// additionally be validated by the protocol-level multitoken authority.
#[derive(Clone, Copy, PartialEq, Eq, Structural, Hash, Debug)]
pub struct Address {
    pub id: u64,
    pub internal: bool,
}

impl Address {
    /// Whether this address names an internal, protocol-owned token.
    pub fn is_internal(&self) -> (r: bool)
        ensures
            r == self.internal,
    {
        self.internal
    }
}

/// The canonical strict total order on addresses: by identifier, with the
/// internal flag breaking ties.  Every multi-element processing step iterates
/// in this order so that independent executions are byte-identical.
pub open spec fn addr_lt(a: Address, b: Address) -> bool {
    a.id < b.id || (a.id == b.id && !a.internal && b.internal)
}

/// Executable comparison deciding `addr_lt`.
pub fn addr_lt_exec(a: &Address, b: &Address) -> (r: bool)
    ensures
        r == addr_lt(*a, *b),
{
    a.id < b.id || (a.id == b.id && !a.internal && b.internal)
}

/// `addr_lt` is a strict total order.
pub proof fn lemma_addr_order(a: Address, b: Address, c: Address)
    ensures
        !(addr_lt(a, b) && addr_lt(b, a)),
        addr_lt(a, b) || addr_lt(b, a) || a == b,
        addr_lt(a, b) && addr_lt(b, c) ==> addr_lt(a, c),
{
}

/// A sequence of addresses in canonical strictly ascending order; such a
/// sequence represents a set of addresses without duplicates.
pub open spec fn addrs_sorted(s: Seq<Address>) -> bool {
    forall|i: int, j: int| 0 <= i < j < s.len() ==> addr_lt(#[trigger] s[i], #[trigger] s[j])
}

/// `post` holds exactly the addresses of `pre` and `a`.
pub open spec fn set_inserted(post: Seq<Address>, pre: Seq<Address>, a: Address) -> bool {
    forall|x: Address|
        #![trigger post.contains(x)]
        #![trigger pre.contains(x)]
        post.contains(x) <==> pre.contains(x) || x == a
}

/// Insert an address into a canonically sorted address set, keeping it sorted
/// and without duplicates.
pub fn insert_addr_sorted(v: &mut Vec<Address>, a: &Address)
    requires
        addrs_sorted(old(v)@),
    ensures
        addrs_sorted(final(v)@),
        set_inserted(final(v)@, old(v)@, *a),
{
    let ghost prev = v@;
    let mut j: usize = 0;
    while j < v.len() && addr_lt_exec(&v[j], a)
        invariant
            j <= v.len(),
            v@ == prev,
            forall|k: int| 0 <= k < j ==> addr_lt(#[trigger] v@[k], *a),
        decreases v.len() - j,
    {
        j += 1;
    }
    if j < v.len() && v[j] == *a {
        proof {
            assert(v@[j as int] == *a);
            assert(v@.contains(*a));
            assert forall|x: Address| #![trigger v@.contains(x)] #![trigger prev.contains(x)]
                v@.contains(x) <==> prev.contains(x) || x == *a by {
                if x == *a {
                    assert(v@.contains(*a));
                }
            }
            assert(set_inserted(v@, prev, *a));
        }
        return ;
    }
    proof {
        if j < v.len() {
            lemma_addr_order(prev[j as int], *a, *a);
            assert(addr_lt(*a, prev[j as int]));
        }
    }
    v.insert(j, *a);
    proof {
        let jj = j as int;
        assert(v@ == prev.insert(jj, *a));
        assert forall|p: int, q: int| 0 <= p < q < v@.len() implies addr_lt(
            #[trigger] v@[p],
            #[trigger] v@[q],
        ) by {
            let pe = if p < jj { prev[p] } else if p == jj { *a } else { prev[p - 1] };
            let qe = if q < jj { prev[q] } else if q == jj { *a } else { prev[q - 1] };
            assert(v@[p] == pe);
            assert(v@[q] == qe);
            if p == jj && q > jj {
                if jj < q - 1 {
                    lemma_addr_order(*a, prev[jj], prev[q - 1]);
                }
            } else if p < jj && q > jj {
                if jj == q - 1 {
                    lemma_addr_order(prev[p], *a, prev[q - 1]);
                } else {
                    lemma_addr_order(*a, prev[jj], prev[q - 1]);
                    lemma_addr_order(prev[p], *a, prev[q - 1]);
                }
            }
        }
        assert forall|x: Address| #![trigger v@.contains(x)] #![trigger prev.contains(x)]
            v@.contains(x) <==> prev.contains(x) || x == *a by {
            if v@.contains(x) {
                let k = choose|k: int| 0 <= k < v@.len() && v@[k] == x;
                if k != jj {
                    let m = if k < jj { k } else { k - 1 };
                    assert(prev[m] == x);
                    assert(prev.contains(x));
                }
            }
            if prev.contains(x) {
                let m = choose|m: int| 0 <= m < prev.len() && prev[m] == x;
                let w = if m < jj { m } else { m + 1 };
                assert(v@[w] == x);
            }
            if x == *a {
                assert(v@[jj] == x);
            }
        }
        assert(set_inserted(v@, prev, *a));
    }
}

/// A transparent-pool address: the transparent-side form of an account address
/// inside the shielded pool's transaction format.
#[derive(Clone, Copy, PartialEq, Eq, Structural, Hash, Debug)]
pub struct TAddr {
    pub tag: u128,
}

/// The pool's derivation of a transparent-pool address from an account
/// address.  The derivation used by a real pool is a collision-resistant
/// hash; this model keeps its essential property, injectivity.
pub open spec fn spec_addr_taddr(a: Address) -> TAddr {
    TAddr { tag: (2 * (a.id as int) + (if a.internal { 1int } else { 0int })) as u128 }
}

/// Derive the transparent-pool address of an account address.
pub fn addr_taddr(a: &Address) -> (r: TAddr)
    ensures
        r == spec_addr_taddr(*a),
{
    let bit: u128 = if a.internal { 1 } else { 0 };
    let tag: u128 = 2 * (a.id as u128) + bit;
    proof {
        assert(tag == (2 * (a.id as int) + (if a.internal { 1int } else { 0int })) as u128);
    }
    TAddr { tag }
}

/// The derivation maps distinct addresses to distinct pool addresses.
pub proof fn lemma_taddr_injective(a: Address, b: Address)
    ensures
        spec_addr_taddr(a) == spec_addr_taddr(b) ==> a == b,
{
    if spec_addr_taddr(a) == spec_addr_taddr(b) {
        assert(2 * (a.id as int) + (if a.internal { 1int } else { 0int }) == 2 * (b.id as int) + (
        if b.internal {
            1int
        } else {
            0int
        }));
    }
}

/// The derivation is strictly monotone for the canonical address order.
pub proof fn lemma_taddr_monotone(a: Address, b: Address)
    ensures
        addr_lt(a, b) <==> spec_addr_taddr(a).tag < spec_addr_taddr(b).tag,
{
}

} // verus!
