//! Identities, proposals, votes and the messages that carry them.

use vstd::prelude::*;

verus! {

/// The relative position of two byte strings in lexicographic order.
#[derive(Clone, Copy, Debug, PartialEq, Eq)]
pub enum ByteOrder {
    Less,
    Equal,
    Greater,
}

/// `a` and `b` agree before position `k`, and `a[k] < b[k]`.
pub open spec fn lt_at(a: Seq<u8>, b: Seq<u8>, k: int) -> bool {
    &&& 0 <= k < a.len()
    &&& k < b.len()
    &&& forall|i: int| 0 <= i < k ==> a[i] == b[i]
    &&& a[k] < b[k]
}

/// Strict lexicographic order on byte strings of equal length (the order that
/// `derive(Ord)` gives a fixed-size byte array).
pub open spec fn bytes_lt(a: Seq<u8>, b: Seq<u8>) -> bool {
    exists|k: int| #[trigger] lt_at(a, b, k)
}

/// The lexicographic order is irreflexive and asymmetric.
pub proof fn lemma_bytes_lt_asymmetric(a: Seq<u8>, b: Seq<u8>)
    ensures
        bytes_lt(a, b) ==> !bytes_lt(b, a),
        !bytes_lt(a, a),
{
    if bytes_lt(a, b) && bytes_lt(b, a) {
        let k1 = choose|k: int| #[trigger] lt_at(a, b, k);
        let k2 = choose|k: int| #[trigger] lt_at(b, a, k);
        if k1 < k2 {
            assert(b[k1] == a[k1]);
        } else if k2 < k1 {
            assert(a[k2] == b[k2]);
        }
    }
    if bytes_lt(a, a) {
        let k = choose|k: int| #[trigger] lt_at(a, a, k);
        assert(a[k] < a[k]);
    }
}

/// The lexicographic order is transitive.
pub proof fn lemma_bytes_lt_transitive(a: Seq<u8>, b: Seq<u8>, c: Seq<u8>)
    requires
        bytes_lt(a, b),
        bytes_lt(b, c),
    ensures
        bytes_lt(a, c),
{
    let k1 = choose|k: int| #[trigger] lt_at(a, b, k);
    let k2 = choose|k: int| #[trigger] lt_at(b, c, k);
    if k1 <= k2 {
        if k1 == k2 {
            assert(lt_at(a, c, k1));
        } else {
            assert(c[k1] == b[k1]);
            assert(lt_at(a, c, k1));
        }
    } else {
        assert(a[k2] == b[k2]);
        assert(lt_at(a, c, k2));
    }
}

/// Two byte strings of equal length are either equal or ordered one way or the other.
pub proof fn lemma_bytes_lt_total(a: Seq<u8>, b: Seq<u8>)
    requires
        a.len() == b.len(),
    ensures
        a == b || bytes_lt(a, b) || bytes_lt(b, a),
    decreases a.len(),
{
    if a.len() > 0 && a != b {
        if a[0] < b[0] {
            assert(lt_at(a, b, 0));
        } else if b[0] < a[0] {
            assert(lt_at(b, a, 0));
        } else {
            let ta = a.drop_first();
            let tb = b.drop_first();
            lemma_bytes_lt_total(ta, tb);
            if ta == tb {
                assert(a =~= b) by {
                    assert forall|i: int| 0 <= i < a.len() implies a[i] == b[i] by {
                        if i > 0 {
                            assert(a[i] == ta[i - 1]);
                            assert(b[i] == tb[i - 1]);
                        }
                    }
                }
            } else if bytes_lt(ta, tb) {
                let k = choose|k: int| #[trigger] lt_at(ta, tb, k);
                assert forall|i: int| 0 <= i < k + 1 implies a[i] == b[i] by {
                    if i > 0 {
                        assert(ta[i - 1] == tb[i - 1]);
                    }
                }
                assert(lt_at(a, b, k + 1));
            } else {
                let k = choose|k: int| #[trigger] lt_at(tb, ta, k);
                assert forall|i: int| 0 <= i < k + 1 implies b[i] == a[i] by {
                    if i > 0 {
                        assert(tb[i - 1] == ta[i - 1]);
                    }
                }
                assert(lt_at(b, a, k + 1));
            }
        }
    }
}

/// Compares two 32-byte strings in lexicographic order.
pub fn compare_bytes(a: &[u8; 32], b: &[u8; 32]) -> (r: ByteOrder)
    ensures
        (r == ByteOrder::Less) <==> bytes_lt(a@, b@),
        (r == ByteOrder::Equal) <==> a@ == b@,
        (r == ByteOrder::Equal) <==> *a == *b,
        (r == ByteOrder::Greater) <==> bytes_lt(b@, a@),
{
    let mut i: usize = 0;
    while i < 32
        invariant
            0 <= i <= 32,
            a@.len() == 32,
            b@.len() == 32,
            forall|j: int| 0 <= j < i ==> a@[j] == b@[j],
        decreases 32 - i,
    {
        if a[i] < b[i] {
            assert(lt_at(a@, b@, i as int));
            proof {
                lemma_bytes_lt_asymmetric(a@, b@);
            }
            return ByteOrder::Less;
        } else if b[i] < a[i] {
            assert(lt_at(b@, a@, i as int));
            proof {
                lemma_bytes_lt_asymmetric(b@, a@);
            }
            return ByteOrder::Greater;
        }
        i = i + 1;
    }
    assert(a@ =~= b@);
    assert(*a =~= *b);
    proof {
        lemma_bytes_lt_asymmetric(a@, a@);
    }
    ByteOrder::Equal
}

/// Whether two proposal identities are the same.
pub fn proposal_id_eq(a: &ProposalId, b: &ProposalId) -> (r: bool)
    ensures
        r == (*a == *b),
{
    match compare_bytes(&a.0, &b.0) {
        ByteOrder::Equal => true,
        _ => false,
    }
}

/// Stable identity of a node (a citizen) of the network.
#[derive(Clone, Copy, Debug, PartialEq, Eq, Hash, PartialOrd, Ord)]
pub struct NodeId(pub [u8; 32]);

impl NodeId {
    /// Builds an identity from its 32 bytes.
    pub fn new(bytes: [u8; 32]) -> (r: NodeId)
        ensures
            r.0 == bytes,
    {
        NodeId(bytes)
    }

    /// An identity made of 32 random bytes.
    pub fn random() -> NodeId {
        NodeId(random_bytes())
    }
}

/// Stable identity of a proposal.
#[derive(Clone, Copy, Debug, PartialEq, Eq, Hash, PartialOrd, Ord)]
pub struct ProposalId(pub [u8; 32]);

impl ProposalId {
    /// Builds a proposal identity from its 32 bytes.
    pub fn new(bytes: [u8; 32]) -> (r: ProposalId)
        ensures
            r.0 == bytes,
    {
        ProposalId(bytes)
    }

    /// A proposal identity made of 32 random bytes.
    pub fn random() -> ProposalId {
        ProposalId(random_bytes())
    }
}

/// A proposed law or capability, identified by its id.
#[derive(Clone, Debug, PartialEq, Eq)]
pub struct Proposal {
    pub id: ProposalId,
    pub kind: String,
    pub payload: Vec<u8>,
}

impl Proposal {
    /// A proposal with a random id.
    pub fn new(kind: &str, payload: Vec<u8>) -> (p: Proposal)
        ensures
            p.kind@ == kind@,
            p.payload@ == payload@,
    {
        Proposal { id: ProposalId::random(), kind: kind.to_owned(), payload }
    }

    /// A proposal with the given id (fully deterministic).
    pub fn with_id(id: ProposalId, kind: &str, payload: Vec<u8>) -> (p: Proposal)
        ensures
            p.id == id,
            p.kind@ == kind@,
            p.payload@ == payload@,
    {
        Proposal { id, kind: kind.to_owned(), payload }
    }
}

/// A vote for (`accept`) or against a proposal.
#[derive(Clone, Debug, PartialEq, Eq)]
pub struct Vote {
    pub proposal_id: ProposalId,
    pub accept: bool,
}

/// The messages that replicas exchange.
#[derive(Clone, Debug, PartialEq, Eq)]
pub enum Message {
    /// Announces a node.
    Hello { node: NodeId },
    /// Keeps a node online.
    Heartbeat { node: NodeId },
    /// Proposes a law or capability.
    Proposal(Proposal),
    /// A vote cast by `from`.
    Vote { from: NodeId, vote: Vote },
}

/// 32 bytes drawn from the thread-local generator of `rand`
/// (`rand::thread_rng` and `RngCore::fill_bytes`). Nothing is claimed of
/// the bytes: they are random.
#[verifier::external_body]
fn random_bytes() -> [u8; 32] {
    let mut bytes = [0u8; 32];
    rand::RngCore::fill_bytes(&mut rand::thread_rng(), &mut bytes);
    bytes
}

} // verus!
