use vstd::prelude::*;

use crate::bytes::bytes_eq;

verus! {

/// An accrued, not-yet-withdrawn balance owed to a wallet.  The ledger only
/// ever grows within this engine: winner draws and non-autosend royalties
/// add to it, withdrawal is the host's concern.
#[derive(Clone, Debug, PartialEq, Eq)]
pub struct Claim {
    pub wallet: Vec<u8>,
    pub amount: u128,
}

/// The mathematical shape of a claim: the wallet's bytes and the amount.
pub ghost struct ClaimV {
    pub wallet: Seq<u8>,
    pub amount: u128,
}

impl View for Claim {
    type V = ClaimV;

    open spec fn view(&self) -> ClaimV {
        ClaimV { wallet: self.wallet@, amount: self.amount }
    }
}

/// The ledger as a sequence of claim models, in ledger order.
pub open spec fn claims_view(cs: Seq<Claim>) -> Seq<ClaimV> {
    cs.map_values(|c: Claim| c@)
}

/// Index of the first claim held by the wallet, if any.
pub open spec fn claim_index(cv: Seq<ClaimV>, w: Seq<u8>) -> Option<int>
    decreases cv.len(),
{
    if cv.len() == 0 {
        None
    } else if cv[0].wallet == w {
        Some(0)
    } else {
        match claim_index(cv.skip(1), w) {
            Some(i) => Some(i + 1),
            None => None,
        }
    }
}

/// The ledger after crediting `a` to the wallet: add to its existing claim,
/// or append a fresh one.
pub open spec fn upsert_v(cv: Seq<ClaimV>, w: Seq<u8>, a: u128) -> Seq<ClaimV> {
    match claim_index(cv, w) {
        Some(i) => cv.update(i, ClaimV { wallet: cv[i].wallet, amount: (cv[i].amount + a) as u128 }),
        None => cv.push(ClaimV { wallet: w, amount: a }),
    }
}

proof fn lemma_claim_index_first(cv: Seq<ClaimV>, w: Seq<u8>, j: int)
    requires
        0 <= j < cv.len(),
        cv[j].wallet == w,
        forall|k: int| 0 <= k < j ==> cv[k].wallet != w,
    ensures
        claim_index(cv, w) == Some(j),
    decreases j,
{
    if j > 0 {
        lemma_claim_index_first(cv.skip(1), w, j - 1);
    }
}

proof fn lemma_claim_index_none(cv: Seq<ClaimV>, w: Seq<u8>)
    requires
        forall|k: int| 0 <= k < cv.len() ==> cv[k].wallet != w,
    ensures
        claim_index(cv, w) is None,
    decreases cv.len(),
{
    if cv.len() > 0 {
        lemma_claim_index_none(cv.skip(1), w);
    }
}

/// A found index really is a hit within bounds.
pub proof fn lemma_claim_index_hit(cv: Seq<ClaimV>, w: Seq<u8>)
    ensures
        match claim_index(cv, w) {
            Some(i) => 0 <= i < cv.len() && cv[i].wallet == w,
            None => forall|k: int| 0 <= k < cv.len() ==> cv[k].wallet != w,
        },
    decreases cv.len(),
{
    if cv.len() > 0 && cv[0].wallet != w {
        lemma_claim_index_hit(cv.skip(1), w);
        match claim_index(cv.skip(1), w) {
            Some(i) => {
                assert(cv.skip(1)[i] == cv[i + 1]);
            },
            None => {
                assert forall|k: int| 0 <= k < cv.len() implies cv[k].wallet != w by {
                    if k > 0 {
                        assert(cv.skip(1)[k - 1] == cv[k]);
                    }
                }
            },
        }
    }
}

/// Crediting `a` out of a budget keeps every ledger amount clear of overflow
/// by the rest of the budget.
pub proof fn lemma_upsert_budget(cv: Seq<ClaimV>, w: Seq<u8>, a: u128, budget: int)
    requires
        a <= budget <= u128::MAX,
        forall|i: int| 0 <= i < cv.len() ==> #[trigger] cv[i].amount + budget <= u128::MAX,
    ensures
        match claim_index(cv, w) {
            Some(i) => cv[i].amount + a <= u128::MAX,
            None => true,
        },
        forall|i: int|
            0 <= i < upsert_v(cv, w, a).len() ==> #[trigger] upsert_v(cv, w, a)[i].amount + (budget
                - a) <= u128::MAX,
{
    lemma_claim_index_hit(cv, w);
}

/// An upsert keeps the ledger's wallets unique: crediting an existing row
/// keeps its wallet, and a fresh row's wallet was not in the ledger.
pub proof fn lemma_upsert_unique(cv: Seq<ClaimV>, w: Seq<u8>, a: u128)
    requires
        forall|i: int, j: int|
            0 <= i < j < cv.len() ==> (#[trigger] cv[i].wallet) != (#[trigger] cv[j].wallet),
    ensures
        forall|i: int, j: int|
            0 <= i < j < upsert_v(cv, w, a).len() ==> (#[trigger] upsert_v(cv, w, a)[i].wallet) != (
            #[trigger] upsert_v(cv, w, a)[j].wallet),
{
    lemma_claim_index_hit(cv, w);
    let cv2 = upsert_v(cv, w, a);
    match claim_index(cv, w) {
        Some(k) => {
            assert forall|i: int, j: int| 0 <= i < j < cv2.len() implies (#[trigger] cv2[i].wallet)
                != (#[trigger] cv2[j].wallet) by {
                assert(cv2[i].wallet == cv[i].wallet);
                assert(cv2[j].wallet == cv[j].wallet);
            }
        },
        None => {
            assert forall|i: int, j: int| 0 <= i < j < cv2.len() implies (#[trigger] cv2[i].wallet)
                != (#[trigger] cv2[j].wallet) by {
                if j == cv2.len() - 1 {
                    assert(cv2[j].wallet == w);
                    assert(cv2[i].wallet == cv[i].wallet);
                } else {
                    assert(cv2[i].wallet == cv[i].wallet);
                    assert(cv2[j].wallet == cv[j].wallet);
                }
            }
        },
    }
}

/// The ledger is monotone: an upsert never decreases any existing claim and
/// never changes whose claim a row is; nothing in this engine decrements a
/// balance.
pub proof fn lemma_upsert_monotone(cv: Seq<ClaimV>, w: Seq<u8>, a: u128)
    requires
        claim_index(cv, w) matches Some(i) ==> cv[i].amount + a <= u128::MAX,
    ensures
        upsert_v(cv, w, a).len() >= cv.len(),
        forall|i: int|
            0 <= i < cv.len() ==> (#[trigger] upsert_v(cv, w, a)[i]).amount >= cv[i].amount
                && upsert_v(cv, w, a)[i].wallet == cv[i].wallet,
{
    lemma_claim_index_hit(cv, w);
}

/// Credit an amount to a wallet in the ledger.
pub fn upsert_claim(claims: &mut Vec<Claim>, wallet: &Vec<u8>, amount: u128)
    requires
        claim_index(claims_view(old(claims)@), wallet@) matches Some(i) ==> claims_view(
            old(claims)@,
        )[i].amount + amount <= u128::MAX,
    ensures
        claims_view(final(claims)@) == upsert_v(claims_view(old(claims)@), wallet@, amount),
        final(claims)@.len() >= old(claims)@.len(),
{
    let ghost cv0 = claims_view(claims@);
    let n = claims.len();
    let mut j: usize = 0;
    while j < n
        invariant
            n == claims@.len(),
            j <= n,
            claims@ == old(claims)@,
            cv0 == claims_view(claims@),
            claim_index(cv0, wallet@) matches Some(i) ==> cv0[i].amount + amount <= u128::MAX,
            forall|k: int| 0 <= k < j ==> claims_view(claims@)[k].wallet != wallet@,
        decreases n - j,
    {
        if bytes_eq(&claims[j].wallet, wallet) {
            proof {
                lemma_claim_index_first(cv0, wallet@, j as int);
                assert(cv0[j as int] == claims@[j as int]@);
            }
            let cur = claims[j].amount;
            claims[j].amount = cur + amount;
            proof {
                assert(claims_view(claims@) =~= upsert_v(cv0, wallet@, amount));
            }
            return ;
        }
        j += 1;
    }
    proof {
        lemma_claim_index_none(cv0, wallet@);
    }
    claims.push(Claim { wallet: wallet.clone(), amount });
    proof {
        assert(claims_view(claims@) =~= upsert_v(cv0, wallet@, amount));
    }
}

} // verus!
