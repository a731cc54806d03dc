//! Participant identities: opaque, already-authenticated 32-byte public key
//! values, totally ordered byte-lexicographically so that the roster can be
//! kept in a canonical order.

use vstd::prelude::*;

verus! {

/// A participant's identity: a 32-byte public key value. The ledger never
/// interprets it; it only compares identities and orders them by their bytes.
#[derive(Clone, Copy, Debug, PartialEq, Eq, Hash)]
pub struct PublicKey {
    bytes: [u8; 32],
}

impl View for PublicKey {
    type V = Seq<u8>;

    closed spec fn view(&self) -> Seq<u8> {
        self.bytes@
    }
}

/// The first `i` bytes of `a` and `b` agree.
pub open spec fn eq_below(a: Seq<u8>, b: Seq<u8>, i: int) -> bool {
    forall|j: int| 0 <= j < i ==> a[j] == b[j]
}

/// Position `i` is the first difference between `a` and `b`, and `a` is the
/// smaller one there.
pub open spec fn lt_at(a: Seq<u8>, b: Seq<u8>, i: int) -> bool {
    &&& 0 <= i < a.len()
    &&& i < b.len()
    &&& eq_below(a, b, i)
    &&& a[i] < b[i]
}

/// Byte-lexicographic strict order on identities of equal length.
pub open spec fn lex_lt(a: Seq<u8>, b: Seq<u8>) -> bool {
    exists|i: int| lt_at(a, b, i)
}

pub proof fn lemma_lex_lt_irrefl(a: Seq<u8>)
    ensures
        !lex_lt(a, a),
{
    if lex_lt(a, a) {
        let i = choose|i: int| lt_at(a, a, i);
        assert(a[i] < a[i]);
    }
}

pub proof fn lemma_lex_lt_neq(a: Seq<u8>, b: Seq<u8>)
    requires
        lex_lt(a, b),
    ensures
        a != b,
{
    let i = choose|i: int| lt_at(a, b, i);
    assert(a[i] < b[i]);
}

pub proof fn lemma_lex_lt_trans(a: Seq<u8>, b: Seq<u8>, c: Seq<u8>)
    requires
        lex_lt(a, b),
        lex_lt(b, c),
        a.len() == b.len(),
        b.len() == c.len(),
    ensures
        lex_lt(a, c),
{
    let i = choose|i: int| lt_at(a, b, i);
    let j = choose|j: int| lt_at(b, c, j);
    if i <= j {
        assert(eq_below(a, c, i));
        if i < j {
            assert(b[i] == c[i]);
        }
        assert(lt_at(a, c, i));
    } else {
        assert(eq_below(a, c, j));
        assert(a[j] == b[j]);
        assert(lt_at(a, c, j));
    }
}

/// Two distinct identities of equal length are ordered one way or the other.
pub proof fn lemma_lex_trichotomy(a: Seq<u8>, b: Seq<u8>)
    requires
        a.len() == b.len(),
        a != b,
    ensures
        lex_lt(a, b) || lex_lt(b, a),
{
    if forall|k: int| 0 <= k < a.len() ==> a[k] == b[k] {
        assert(a =~= b);
    }
    let d = choose|k: int| 0 <= k < a.len() && a[k] != b[k];
    lemma_first_diff(a, b, d);
}

proof fn lemma_first_diff(a: Seq<u8>, b: Seq<u8>, i: int)
    requires
        a.len() == b.len(),
        0 <= i < a.len(),
        a[i] != b[i],
    ensures
        lex_lt(a, b) || lex_lt(b, a),
    decreases i,
{
    if eq_below(a, b, i) {
        assert(eq_below(b, a, i));
        if a[i] < b[i] {
            assert(lt_at(a, b, i));
        } else {
            assert(lt_at(b, a, i));
        }
    } else {
        let j = choose|j: int| 0 <= j < i && a[j] != b[j];
        lemma_first_diff(a, b, j);
    }
}

/// Every identity's view holds exactly 32 bytes.
pub broadcast proof fn lemma_pk_view_len(k: PublicKey)
    ensures
        (#[trigger] k@).len() == 32,
{
}

impl PublicKey {
    /// Wraps the raw 32 bytes of an ed25519 public key as an identity.
    pub fn ed25519_from(bytes: [u8; 32]) -> (r: PublicKey)
        ensures
            r@ == bytes@,
    {
        PublicKey { bytes }
    }

    /// The raw 32 bytes of the identity.
    pub fn value(&self) -> (r: [u8; 32])
        ensures
            r@ == self@,
    {
        self.bytes
    }
}

/// Decides the byte-lexicographic order between two identities.
pub fn pk_lt(a: &PublicKey, b: &PublicKey) -> (r: bool)
    ensures
        r == lex_lt(a@, b@),
{
    let mut i: usize = 0;
    while i < 32
        invariant
            0 <= i <= 32,
            eq_below(a@, b@, i as int),
        decreases 32 - i,
    {
        let x = a.bytes[i];
        let y = b.bytes[i];
        if x < y {
            proof {
                assert(lt_at(a@, b@, i as int));
            }
            return true;
        }
        if y < x {
            proof {
                if lex_lt(a@, b@) {
                    let m = choose|m: int| lt_at(a@, b@, m);
                    if m < i as int {
                        assert(a@[m] == b@[m]);
                    } else if m == i as int {
                        assert(a@[m] < b@[m]);
                    } else {
                        assert(a@[i as int] == b@[i as int]);
                    }
                }
            }
            return false;
        }
        proof {
            assert(eq_below(a@, b@, i + 1)) by {
                assert(a@[i as int] == b@[i as int]);
            }
        }
        i = i + 1;
    }
    proof {
        assert(a@ =~= b@);
        lemma_lex_lt_irrefl(a@);
    }
    false
}

/// Decides whether two identities hold the same bytes.
pub fn pk_eq(a: &PublicKey, b: &PublicKey) -> (r: bool)
    ensures
        r == (a@ == b@),
{
    let mut i: usize = 0;
    while i < 32
        invariant
            0 <= i <= 32,
            eq_below(a@, b@, i as int),
        decreases 32 - i,
    {
        if a.bytes[i] != b.bytes[i] {
            proof {
                assert(a@[i as int] != b@[i as int]);
            }
            return false;
        }
        proof {
            assert(eq_below(a@, b@, i + 1)) by {
                assert(a@[i as int] == b@[i as int]);
            }
        }
        i = i + 1;
    }
    proof {
        assert(a@ =~= b@);
    }
    true
}

} // verus!
