//! Fixed-size byte identifiers and the order that breaks ties between them.

use vstd::prelude::*;

verus! {

/// Identifies a payment channel.
pub type ChannelId = [u8; 32];

/// Identifies a provider.
pub type ProviderId = [u8; 32];

/// Hash of the transaction that emitted a log.
pub type TxHash = [u8; 32];

/// An account or contract address.
pub type Address = [u8; 20];

/// `a` and `b` hold the same bytes at every position below `n`.
pub open spec fn agree_before(a: Seq<u8>, b: Seq<u8>, n: int) -> bool {
    forall|j: int| 0 <= j < n ==> a[j] == b[j]
}

/// Position `i` is the first at which `a` and `b` differ, and `a` is the
/// smaller there.
pub open spec fn below_at(a: Seq<u8>, b: Seq<u8>, i: int) -> bool {
    &&& 0 <= i < a.len()
    &&& i < b.len()
    &&& agree_before(a, b, i)
    &&& a[i] < b[i]
}

/// Strict lexicographic order on byte strings.
pub open spec fn bytes_lt(a: Seq<u8>, b: Seq<u8>) -> bool {
    exists|i: int| below_at(a, b, i)
}

/// Strict order on identifiers: byte by byte, the first byte weighing most.
pub open spec fn id_lt(a: ChannelId, b: ChannelId) -> bool {
    bytes_lt(a@, b@)
}

/// How one identifier stands to another in [`id_lt`].
#[derive(Clone, Copy, Debug, PartialEq, Eq)]
pub enum Rank {
    Before,
    Same,
    After,
}

/// No byte string is below itself.
pub proof fn lemma_bytes_lt_irreflexive(a: Seq<u8>)
    ensures
        !bytes_lt(a, a),
{
}

/// What is below a byte string is below all that the string is below.
pub proof fn lemma_bytes_lt_transitive(a: Seq<u8>, b: Seq<u8>, c: Seq<u8>)
    requires
        bytes_lt(a, b),
        bytes_lt(b, c),
    ensures
        bytes_lt(a, c),
{
    let i = choose|i: int| below_at(a, b, i);
    let j = choose|j: int| below_at(b, c, j);
    let k = if i <= j { i } else { j };
    assert(below_at(a, c, k));
}

/// Of two byte strings only one can be below the other.
pub proof fn lemma_bytes_lt_asymmetric(a: Seq<u8>, b: Seq<u8>)
    requires
        bytes_lt(a, b),
    ensures
        !bytes_lt(b, a),
{
    if bytes_lt(b, a) {
        lemma_bytes_lt_transitive(a, b, a);
        lemma_bytes_lt_irreflexive(a);
    }
}

proof fn lemma_bytes_lt_total_from(a: Seq<u8>, b: Seq<u8>, n: int)
    requires
        a.len() == b.len(),
        0 <= n <= a.len(),
        agree_before(a, b, n),
    ensures
        bytes_lt(a, b) || bytes_lt(b, a) || a == b,
    decreases a.len() - n,
{
    if n == a.len() {
        assert(a =~= b);
    } else if a[n] < b[n] {
        assert(below_at(a, b, n));
    } else if b[n] < a[n] {
        assert(below_at(b, a, n));
    } else {
        lemma_bytes_lt_total_from(a, b, n + 1);
    }
}

/// Of two different identifiers one stands before the other.
pub proof fn lemma_id_lt_total(a: ChannelId, b: ChannelId)
    ensures
        id_lt(a, b) || id_lt(b, a) || a == b,
{
    lemma_bytes_lt_total_from(a@, b@, 0);
    if a@ == b@ {
        assert(a =~= b);
    }
}

/// Whether two identifiers of the same size hold the same bytes.
pub fn bytes_eq<const N: usize>(a: &[u8; N], b: &[u8; N]) -> (same: bool)
    ensures
        same == (*a == *b),
{
    let mut i: usize = 0;
    while i < N
        invariant
            i <= N,
            agree_before(a@, b@, i as int),
        decreases N - i,
    {
        if a[i] != b[i] {
            return false;
        }
        i = i + 1;
    }
    assert(*a =~= *b);
    true
}

/// Ranks `a` against `b`.
pub fn id_rank(a: &ChannelId, b: &ChannelId) -> (rank: Rank)
    ensures
        rank is Before <==> id_lt(*a, *b),
        rank is Same <==> *a == *b,
        rank is After <==> id_lt(*b, *a),
{
    let mut i: usize = 0;
    while i < 32
        invariant
            i <= 32,
            agree_before(a@, b@, i as int),
        decreases 32 - i,
    {
        if a[i] < b[i] {
            proof {
                assert(below_at(a@, b@, i as int));
                lemma_bytes_lt_asymmetric(a@, b@);
                lemma_bytes_lt_irreflexive(a@);
            }
            return Rank::Before;
        }
        if a[i] > b[i] {
            proof {
                assert(below_at(b@, a@, i as int));
                lemma_bytes_lt_asymmetric(b@, a@);
                lemma_bytes_lt_irreflexive(a@);
            }
            return Rank::After;
        }
        i = i + 1;
    }
    proof {
        assert(*a =~= *b);
        lemma_bytes_lt_irreflexive(a@);
    }
    Rank::Same
}

} // verus!
