use vstd::prelude::*;

use crate::contract::{first_match, is_first_match, lemma_first_match_unique, ContractView};
use crate::listing::{
    lemma_granted_wf, lemma_purchased_wf, lemma_revoked_wf, lemma_without_accounts, ListingKind,
    ListingView,
};

verus! {

/// Appending a listing leaves the lookup of an id that already resolves unchanged,
/// and makes an id that did not resolve resolve to the new listing.
pub proof fn lemma_created_find(v: ContractView, l: ListingView, p: u64)
    ensures
        v.find(p) is Some ==> v.created(l).find(p) == v.find(p),
        (v.find(p) is None && l.product_id == p) ==> v.created(l).find(p) == Some(l),
{
    let w = v.created(l);
    if let Some(i) = first_match(v.listings, p) {
        assert(is_first_match(v.listings, p, i));
        assert(is_first_match(w.listings, p, i));
        lemma_first_match_unique(w.listings, p, i);
    } else if l.product_id == p {
        let n = v.listings.len() as int;
        assert forall|j: int| 0 <= j < n implies w.listings[j].product_id != p by {
            if v.listings[j].product_id == p {
                lemma_least_match(v.listings, p, j);
            }
        }
        assert(is_first_match(w.listings, p, n));
        lemma_first_match_unique(w.listings, p, n);
    }
}

proof fn lemma_least_match(ls: Seq<ListingView>, p: u64, j: int)
    requires
        0 <= j < ls.len(),
        ls[j].product_id == p,
    ensures
        first_match(ls, p) is Some,
    decreases j,
{
    if forall|m: int| 0 <= m < j ==> ls[m].product_id != p {
        lemma_first_match_unique(ls, p, j);
    } else {
        let m = choose|m: int| 0 <= m < j && ls[m].product_id == p;
        lemma_least_match(ls, p, m);
    }
}

/// A listing just created is what a lookup of its id returns, with no purchases
/// and no buyers, provided no earlier listing has that id.
pub proof fn lemma_create_then_find(
    v: ContractView,
    product_id: u64,
    price: u32,
    nova_group_id: Seq<char>,
    list_type: ListingKind,
    cid: Seq<char>,
    owner: Seq<char>,
    is_tee_verified: bool,
    tee_signature: Option<Seq<char>>,
)
    requires
        v.find(product_id) is None,
    ensures
        ({
            let l = ListingView::fresh(
                product_id,
                price,
                nova_group_id,
                list_type,
                cid,
                owner,
                is_tee_verified,
                tee_signature,
            );
            &&& v.created(l).find(product_id) == Some(l)
            &&& l.purchase_number == 0
            &&& l.buyers.len() == 0
            &&& l.buyers_with_access.len() == 0
        }),
{
    let l = ListingView::fresh(
        product_id,
        price,
        nova_group_id,
        list_type,
        cid,
        owner,
        is_tee_verified,
        tee_signature,
    );
    lemma_created_find(v, l, product_id);
}

/// Of two listings created with the same id, a lookup returns the earlier one.
pub proof fn lemma_duplicate_id_earliest(v: ContractView, first: ListingView, second: ListingView)
    requires
        v.find(first.product_id) is None,
        second.product_id == first.product_id,
    ensures
        v.created(first).created(second).find(first.product_id) == Some(first),
{
    lemma_created_find(v, first, first.product_id);
    lemma_created_find(v.created(first), second, first.product_id);
}

/// The ledger after `n` purchases of `p` by `caller`, each naming `nova`.
pub open spec fn bought_times(
    v: ContractView,
    p: u64,
    caller: Seq<char>,
    nova: Seq<char>,
    n: nat,
) -> ContractView
    decreases n,
{
    if n == 0 {
        v
    } else {
        bought_times(v, p, caller, nova, (n - 1) as nat).bought(p, caller, nova)
    }
}

/// After `n` purchases of one listing by one caller, the counter has grown by `n`
/// while the buyer list holds the caller once: it is what one purchase left.
pub proof fn lemma_repeated_purchases(
    v: ContractView,
    p: u64,
    caller: Seq<char>,
    nova: Seq<char>,
    n: nat,
)
    requires
        v.wf(),
        v.find(p) is Some,
        n >= 1,
    ensures
        ({
            let l = v.find(p)->Some_0;
            let w = bought_times(v, p, caller, nova, n);
            &&& w.find(p) is Some
            &&& w.find(p)->Some_0.purchase_number == l.purchase_number + n
            &&& w.find(p)->Some_0.buyers == l.purchased_by(caller).buyers
            &&& w.find(p)->Some_0.buyers.contains(caller)
            &&& w.find(p)->Some_0.buyers.no_duplicates()
            &&& w.nova_accounts == v.nova_accounts.insert(caller, nova)
        }),
    decreases n,
{
    let i = first_match(v.listings, p)->Some_0;
    let l = v.listings[i];
    assert(is_first_match(v.listings, p, i));
    lemma_bought_keeps_index(v, p, caller, nova, n);
    let w = bought_times(v, p, caller, nova, n);
    if n == 1 {
        assert(w.listings[i] == l.purchased_by(caller));
    } else {
        lemma_repeated_purchases(v, p, caller, nova, (n - 1) as nat);
        let u = bought_times(v, p, caller, nova, (n - 1) as nat);
        lemma_bought_keeps_index(v, p, caller, nova, (n - 1) as nat);
        assert(u.listings[i].buyers.contains(caller));
        assert(w.listings[i] == u.listings[i].purchased_by(caller));
    }
    assert(l.wf());
    if n > 1 {
        let u = bought_times(v, p, caller, nova, (n - 1) as nat);
        assert(w.nova_accounts =~= u.nova_accounts.insert(caller, nova));
        assert(u.nova_accounts.insert(caller, nova) =~= v.nova_accounts.insert(caller, nova));
    }
    let b = l.purchased_by(caller).buyers;
    if !l.buyers.contains(caller) {
        assert(b[l.buyers.len() as int] == caller);
        crate::listing::lemma_push_absent(l.buyers, caller);
    }
}

proof fn lemma_bought_keeps_index(v: ContractView, p: u64, caller: Seq<char>, nova: Seq<char>, n: nat)
    requires
        first_match(v.listings, p) is Some,
    ensures
        ({
            let w = bought_times(v, p, caller, nova, n);
            &&& first_match(w.listings, p) == first_match(v.listings, p)
            &&& w.listings.len() == v.listings.len()
            &&& forall|j: int| 0 <= j < v.listings.len() ==> #[trigger] w.listings[j].product_id
                == v.listings[j].product_id
        }),
    decreases n,
{
    let i = first_match(v.listings, p)->Some_0;
    assert(is_first_match(v.listings, p, i));
    if n > 0 {
        lemma_bought_keeps_index(v, p, caller, nova, (n - 1) as nat);
        let u = bought_times(v, p, caller, nova, (n - 1) as nat);
        let w = u.bought(p, caller, nova);
        assert(is_first_match(w.listings, p, i));
        lemma_first_match_unique(w.listings, p, i);
    }
}

/// Granting access to an account that has not bought the listing is refused
/// with a precondition error and changes nothing.
pub proof fn lemma_grant_needs_purchase(v: ContractView, p: u64, buyer: Seq<char>)
    requires
        v.find(p) is Some,
        !v.find(p)->Some_0.buyers.contains(buyer),
    ensures
        v.grant_result(p, buyer, v.find(p)->Some_0.owner) == Err::<(), _>(
            crate::contract::AccessError::Precondition,
        ),
        v.granted(p, buyer, v.find(p)->Some_0.owner) == v,
{
}

/// A grant that succeeded succeeds again, and the second changes nothing.
pub proof fn lemma_grant_idempotent(v: ContractView, p: u64, buyer: Seq<char>, caller: Seq<char>)
    requires
        v.grant_result(p, buyer, caller) is Ok,
    ensures
        v.granted(p, buyer, caller).grant_result(p, buyer, caller) is Ok,
        v.granted(p, buyer, caller).granted(p, buyer, caller) == v.granted(p, buyer, caller),
{
    let w = v.granted(p, buyer, caller);
    if let Some(i) = first_match(v.listings, p) {
        assert(is_first_match(v.listings, p, i));
        assert(is_first_match(w.listings, p, i));
        lemma_first_match_unique(w.listings, p, i);
        let l = v.listings[i];
        if !l.buyers_with_access.contains(buyer) {
            assert(l.granted(buyer).buyers_with_access[l.buyers_with_access.len() as int] == buyer);
        }
        assert(w.listings[i].granted(buyer) == w.listings[i]);
        assert(w.listings.update(i, w.listings[i].granted(buyer)) =~= w.listings);
    }
}

/// Anyone but the owner is refused a grant or a revoke with an authorization
/// error, whatever the buyer, and the ledger is left as it was.
pub proof fn lemma_non_owner_refused(v: ContractView, p: u64, buyer: Seq<char>, caller: Seq<char>)
    requires
        v.find(p) is Some,
        v.find(p)->Some_0.owner != caller,
    ensures
        v.grant_result(p, buyer, caller) == Err::<(), _>(
            crate::contract::AccessError::Authorization,
        ),
        v.revoke_result(p, caller) == Err::<(), _>(crate::contract::AccessError::Authorization),
        v.granted(p, buyer, caller) == v,
        v.revoked(p, buyer, caller) == v,
{
}

/// In a well-formed ledger the buyers of a listing split into those waiting for
/// access and those with access: together they are all buyers, and no account
/// is in both.
pub proof fn lemma_pending_partition(v: ContractView, p: u64)
    requires
        v.wf(),
    ensures
        v.pending_of(p).to_set().union(v.with_access_of(p).to_set()) == (match v.find(p) {
            Some(l) => l.buyers.to_set(),
            None => Set::<Seq<char>>::empty(),
        }),
        v.pending_of(p).to_set().disjoint(v.with_access_of(p).to_set()),
{
    match first_match(v.listings, p) {
        Some(i) => {
            assert(is_first_match(v.listings, p, i));
            let l = v.listings[i];
            assert(l.wf());
            lemma_without_accounts(l.buyers, l.buyers_with_access);
            assert(v.pending_of(p).to_set().union(v.with_access_of(p).to_set()) =~= l.buyers.to_set());
        },
        None => {
            assert(v.pending_of(p).to_set() =~= Set::<Seq<char>>::empty());
            assert(v.with_access_of(p).to_set() =~= Set::<Seq<char>>::empty());
        },
    }
}

/// Grants, revokes and purchases keep a well-formed ledger well formed, so the
/// split into pending buyers and buyers with access holds after any sequence
/// of them.
pub proof fn lemma_changes_keep_wf(
    v: ContractView,
    p: u64,
    buyer: Seq<char>,
    caller: Seq<char>,
    nova: Seq<char>,
)
    requires
        v.wf(),
    ensures
        v.granted(p, buyer, caller).wf(),
        v.revoked(p, buyer, caller).wf(),
        v.bought(p, caller, nova).wf(),
{
    if let Some(i) = first_match(v.listings, p) {
        assert(is_first_match(v.listings, p, i));
        let l = v.listings[i];
        assert(l.wf());
        lemma_purchased_wf(l, caller);
        lemma_revoked_wf(l, buyer);
        if l.buyers.contains(buyer) {
            lemma_granted_wf(l, buyer);
        }
        let g = v.granted(p, buyer, caller);
        assert forall|j: int| 0 <= j < g.listings.len() implies #[trigger] g.listings[j].wf() by {
            if j != i {
                assert(g.listings[j] == v.listings[j]);
            }
        }
        let r = v.revoked(p, buyer, caller);
        assert forall|j: int| 0 <= j < r.listings.len() implies #[trigger] r.listings[j].wf() by {
            if j != i {
                assert(r.listings[j] == v.listings[j]);
            }
        }
        let b = v.bought(p, caller, nova);
        assert forall|j: int| 0 <= j < b.listings.len() implies #[trigger] b.listings[j].wf() by {
            if j != i {
                assert(b.listings[j] == v.listings[j]);
            }
        }
    }
}

/// After a mapping is written, a lookup returns the value written; a second
/// write replaces the first.
pub proof fn lemma_mapping_overwrite(
    m: Map<Seq<char>, Seq<char>>,
    a: Seq<char>,
    x: Seq<char>,
    y: Seq<char>,
)
    ensures
        m.insert(a, x).contains_key(a),
        m.insert(a, x)[a] == x,
        m.insert(a, x).insert(a, y)[a] == y,
        m.insert(a, x).insert(a, y) == m.insert(a, y),
{
    assert(m.insert(a, x).insert(a, y) =~= m.insert(a, y));
}

} // verus!
