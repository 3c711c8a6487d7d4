use vstd::prelude::*;

use crate::identity::{mapping_of, IdentityMap};
use crate::listing::{
    account_seq, accounts_without, contains_account, copy_accounts, lemma_account_seq_push,
    lemma_granted_wf, lemma_listing_views_push, lemma_listing_views_update, lemma_purchased_wf,
    lemma_revoked_wf, listing_views, opt_listing_view, opt_view, Listing, ListingKind, ListingView,
};

verus! {

/// Why a grant or a revoke was refused.
#[derive(Clone, Copy, Debug, PartialEq, Eq, Structural)]
pub enum AccessError {
    /// The caller is not the owner of the listing.
    Authorization,
    /// The account to be granted access has not bought the listing.
    Precondition,
}

/// The model of the ledger: the listings in creation order, and the
/// account mapping.
pub ghost struct ContractView {
    pub listings: Seq<ListingView>,
    pub nova_accounts: Map<Seq<char>, Seq<char>>,
}

/// `i` is the position of the earliest listing with id `p`.
pub open spec fn is_first_match(ls: Seq<ListingView>, p: u64, i: int) -> bool {
    &&& 0 <= i < ls.len()
    &&& ls[i].product_id == p
    &&& forall|j: int| 0 <= j < i ==> ls[j].product_id != p
}

/// The position of the earliest listing with id `p`, if any.
pub open spec fn first_match(ls: Seq<ListingView>, p: u64) -> Option<int> {
    if exists|i: int| is_first_match(ls, p, i) {
        Some(choose|i: int| is_first_match(ls, p, i))
    } else {
        None
    }
}

/// The pairs of account and mapped account for each account of `s` that the
/// mapping holds, in the order of `s`; an unmapped account is left out.
pub open spec fn with_mapped(s: Seq<Seq<char>>, m: Map<Seq<char>, Seq<char>>) -> Seq<
    (Seq<char>, Seq<char>),
>
    decreases s.len(),
{
    if s.len() == 0 {
        Seq::empty()
    } else {
        let rest = with_mapped(s.drop_last(), m);
        if m.contains_key(s.last()) {
            rest.push((s.last(), m[s.last()]))
        } else {
            rest
        }
    }
}

/// The model of a vector of string pairs.
pub open spec fn pair_seq(v: Seq<(String, String)>) -> Seq<(Seq<char>, Seq<char>)> {
    v.map_values(|e: (String, String)| (e.0@, e.1@))
}

proof fn lemma_pair_seq_push(s: Seq<(String, String)>, e: (String, String))
    ensures
        pair_seq(s.push(e)) == pair_seq(s).push((e.0@, e.1@)),
{
    assert forall|j: int| 0 <= j < s.len() + 1 implies #[trigger] pair_seq(s.push(e))[j]
        == pair_seq(s).push((e.0@, e.1@))[j] by {
        if j < s.len() {
            assert(s.push(e)[j] == s[j]);
        }
    }
    assert(pair_seq(s.push(e)) =~= pair_seq(s).push((e.0@, e.1@)));
}

/// The first match is the only one that meets the definition.
pub proof fn lemma_first_match_unique(ls: Seq<ListingView>, p: u64, i: int)
    requires
        is_first_match(ls, p, i),
    ensures
        first_match(ls, p) == Some(i),
{
    let k = choose|k: int| is_first_match(ls, p, k);
    assert(is_first_match(ls, p, k));
    if k < i {
        assert(ls[k].product_id != p);
    } else if i < k {
        assert(ls[i].product_id != p);
    }
}

impl ContractView {
    /// Every listing is well formed.
    pub open spec fn wf(self) -> bool {
        forall|i: int| 0 <= i < self.listings.len() ==> #[trigger] self.listings[i].wf()
    }

    /// The listing that a lookup by `p` resolves to: the earliest created one.
    pub open spec fn find(self, p: u64) -> Option<ListingView> {
        match first_match(self.listings, p) {
            Some(i) => Some(self.listings[i]),
            None => None,
        }
    }

    /// The ledger with `l` appended after all existing listings.
    pub open spec fn created(self, l: ListingView) -> ContractView {
        ContractView { listings: self.listings.push(l), ..self }
    }

    /// The ledger after `caller` buys `p` and names `nova` as its mapped account.
    pub open spec fn bought(self, p: u64, caller: Seq<char>, nova: Seq<char>) -> ContractView {
        ContractView {
            listings: match first_match(self.listings, p) {
                Some(i) => self.listings.update(i, self.listings[i].purchased_by(caller)),
                None => self.listings,
            },
            nova_accounts: self.nova_accounts.insert(caller, nova),
        }
    }

    /// The outcome of `caller` granting `buyer` access to `p`.
    pub open spec fn grant_result(self, p: u64, buyer: Seq<char>, caller: Seq<char>) -> Result<
        (),
        AccessError,
    > {
        match self.find(p) {
            None => Ok(()),
            Some(l) => if l.owner != caller {
                Err(AccessError::Authorization)
            } else if !l.buyers.contains(buyer) {
                Err(AccessError::Precondition)
            } else {
                Ok(())
            },
        }
    }

    /// The ledger after `caller` grants `buyer` access to `p`; unchanged when refused.
    pub open spec fn granted(self, p: u64, buyer: Seq<char>, caller: Seq<char>) -> ContractView {
        match first_match(self.listings, p) {
            Some(i) => if self.grant_result(p, buyer, caller) is Ok {
                ContractView {
                    listings: self.listings.update(i, self.listings[i].granted(buyer)),
                    ..self
                }
            } else {
                self
            },
            None => self,
        }
    }

    /// The outcome of `caller` revoking the access of `buyer` to `p`.
    pub open spec fn revoke_result(self, p: u64, caller: Seq<char>) -> Result<(), AccessError> {
        match self.find(p) {
            Some(l) => if l.owner != caller {
                Err(AccessError::Authorization)
            } else {
                Ok(())
            },
            None => Ok(()),
        }
    }

    /// The ledger after `caller` revokes the access of `buyer` to `p`; unchanged when refused.
    pub open spec fn revoked(self, p: u64, buyer: Seq<char>, caller: Seq<char>) -> ContractView {
        match first_match(self.listings, p) {
            Some(i) => if self.revoke_result(p, caller) is Ok {
                ContractView {
                    listings: self.listings.update(i, self.listings[i].revoked(buyer)),
                    ..self
                }
            } else {
                self
            },
            None => self,
        }
    }

    /// The account mapped to `a`, if any.
    pub open spec fn nova_account_of(self, a: Seq<char>) -> Option<Seq<char>> {
        if self.nova_accounts.contains_key(a) {
            Some(self.nova_accounts[a])
        } else {
            None
        }
    }

    /// The buyers of `p` still waiting for access; empty when there is no such listing.
    pub open spec fn pending_of(self, p: u64) -> Seq<Seq<char>> {
        match self.find(p) {
            Some(l) => l.pending(),
            None => Seq::empty(),
        }
    }

    /// The buyers of `p` that have access; empty when there is no such listing.
    pub open spec fn with_access_of(self, p: u64) -> Seq<Seq<char>> {
        match self.find(p) {
            Some(l) => l.buyers_with_access,
            None => Seq::empty(),
        }
    }
}

/// The marketplace ledger: listings in creation order, and the map from an
/// account to its account in the companion system.
pub struct Contract {
    listings: Vec<Listing>,
    nova_account_map: IdentityMap,
}

impl View for Contract {
    type V = ContractView;

    closed spec fn view(&self) -> ContractView {
        ContractView {
            listings: listing_views(self.listings@),
            nova_accounts: self.nova_account_map.view(),
        }
    }
}

impl Default for Contract {
    fn default() -> (r: Contract)
        ensures
            r.wf(),
            r@.listings == Seq::<ListingView>::empty(),
            r@.nova_accounts == Map::<Seq<char>, Seq<char>>::empty(),
    {
        let r = Contract { listings: Vec::new(), nova_account_map: IdentityMap::new() };
        assert(r@.listings =~= Seq::<ListingView>::empty());
        r
    }
}

impl Contract {
    /// The account map has no repeated key and every listing is well formed.
    pub closed spec fn wf(&self) -> bool {
        self.nova_account_map.wf() && self@.wf()
    }

    proof fn lemma_view_at(&self, i: int)
        requires
            0 <= i < self.listings@.len(),
        ensures
            self@.listings.len() == self.listings@.len(),
            self@.listings[i] == self.listings@[i]@,
    {
    }

    /// The position of the earliest listing with id `p`.
    fn find_index(&self, p: u64) -> (r: Option<usize>)
        ensures
            match r {
                Some(i) => first_match(self@.listings, p) == Some(i as int) && i
                    < self.listings@.len(),
                None => first_match(self@.listings, p) is None,
            },
    {
        let mut i: usize = 0;
        while i < self.listings.len()
            invariant
                0 <= i <= self.listings@.len(),
                self@.listings.len() == self.listings@.len(),
                forall|j: int| 0 <= j < i ==> self@.listings[j].product_id != p,
            decreases self.listings@.len() - i,
        {
            proof {
                self.lemma_view_at(i as int);
            }
            if self.listings[i].product_id == p {
                proof {
                    lemma_first_match_unique(self@.listings, p, i as int);
                }
                return Some(i);
            }
            i = i + 1;
        }
        assert(!exists|k: int| is_first_match(self@.listings, p, k));
        None
    }

    /// Appends a new listing: no purchases, no buyers, active.
    pub fn create_listing(
        &mut self,
        product_id: u64,
        price: u32,
        nova_group_id: String,
        list_type: ListingKind,
        cid: String,
        gp_owner: String,
        is_tee_verified: bool,
        tee_signature: Option<String>,
    )
        requires
            old(self).wf(),
        ensures
            final(self).wf(),
            final(self)@ == old(self)@.created(
                ListingView::fresh(
                    product_id,
                    price,
                    nova_group_id@,
                    list_type,
                    cid@,
                    gp_owner@,
                    is_tee_verified,
                    opt_view(tee_signature),
                ),
            ),
    {
        let new_list = Listing {
            product_id,
            price,
            nova_group_id,
            owner: gp_owner,
            purchase_number: 0,
            list_type,
            cid,
            is_active: true,
            buyers: Vec::new(),
            buyers_with_access: Vec::new(),
            is_tee_verified,
            tee_signature,
        };
        assert(account_seq(new_list.buyers@) =~= Seq::<Seq<char>>::empty());
        assert(account_seq(new_list.buyers_with_access@) =~= Seq::<Seq<char>>::empty());
        let ghost pre = self@;
        self.listings.push(new_list);
        assert(self@.listings =~= pre.listings.push(new_list@));
        assert(self@.wf()) by {
            assert forall|i: int| 0 <= i < self@.listings.len() implies #[trigger] self@.listings[
                i].wf() by {
                if i < pre.listings.len() {
                    assert(self@.listings[i] == pre.listings[i]);
                }
            }
        }
    }

    /// A copy of every listing, in creation order.
    pub fn get_listings(&self) -> (r: Vec<Listing>)
        ensures
            listing_views(r@) == self@.listings,
    {
        let mut r: Vec<Listing> = Vec::new();
        let mut i: usize = 0;
        while i < self.listings.len()
            invariant
                0 <= i <= self.listings@.len(),
                self@.listings.len() == self.listings@.len(),
                listing_views(r@) == self@.listings.take(i as int),
            decreases self.listings@.len() - i,
        {
            proof {
                self.lemma_view_at(i as int);
            }
            let l = self.listings[i].duplicate();
            let ghost before = r@;
            let ghost lv = l;
            r.push(l);
            proof {
                lemma_listing_views_push(before, lv);
            }
            assert(self@.listings.take(i + 1) =~= self@.listings.take(i as int).push(lv@));
            assert(listing_views(r@) =~= self@.listings.take(i + 1));
            i = i + 1;
        }
        assert(self@.listings.take(i as int) =~= self@.listings);
        r
    }

    /// Puts `item` at position `i`, keeping the ledger well formed.
    fn replace_listing(&mut self, i: usize, item: Listing)
        requires
            old(self).wf(),
            i < old(self).listings@.len(),
            item@.wf(),
        ensures
            final(self).wf(),
            final(self)@ == (ContractView {
                listings: old(self)@.listings.update(i as int, item@),
                ..old(self)@
            }),
    {
        let ghost pre = self@;
        let ghost it = item;
        proof {
            lemma_listing_views_update(self.listings@, i as int, it);
        }
        self.listings.set(i, item);
        assert(self@.listings == pre.listings.update(i as int, it@));
        assert forall|j: int| 0 <= j < self@.listings.len() implies #[trigger] self@.listings[
            j].wf() by {
            if j != i {
                assert(self@.listings[j] == pre.listings[j]);
            }
        }
    }

    /// Records a purchase of `p_id` by `caller`, and maps `caller` to
    /// `nova_account_id` whether or not the listing exists. The purchase counter
    /// counts every call; `caller` joins the buyers once.
    pub fn buy(&mut self, p_id: u64, caller: String, nova_account_id: String)
        requires
            old(self).wf(),
            match old(self)@.find(p_id) {
                Some(l) => l.purchase_number < u32::MAX,
                None => true,
            },
        ensures
            final(self).wf(),
            final(self)@ == old(self)@.bought(p_id, caller@, nova_account_id@),
    {
        let ghost pre = self@;
        self.nova_account_map.upsert(caller.clone(), nova_account_id);
        let ghost mid = self@;
        assert(mid.listings == pre.listings);
        match self.find_index(p_id) {
            Some(i) => {
                proof {
                    self.lemma_view_at(i as int);
                    lemma_purchased_wf(pre.listings[i as int], caller@);
                }
                let mut item = self.listings[i].duplicate();
                item.purchase_number = item.purchase_number + 1;
                if !contains_account(&item.buyers, &caller) {
                    let ghost b = item.buyers@;
                    let ghost c = caller;
                    item.buyers.push(caller);
                    proof {
                        lemma_account_seq_push(b, c);
                    }
                }
                assert(item@ == pre.listings[i as int].purchased_by(caller@));
                self.replace_listing(i, item);
                assert(self@ == pre.bought(p_id, caller@, nova_account_id@));
            },
            None => {
                assert(self@ == pre.bought(p_id, caller@, nova_account_id@));
            },
        }
    }

    /// The account mapped to `near_wallet`, if any.
    pub fn get_nova_account(&self, near_wallet: String) -> (r: Option<String>)
        requires
            self.wf(),
        ensures
            opt_view(r) == self@.nova_account_of(near_wallet@),
    {
        self.nova_account_map.lookup(&near_wallet)
    }

    /// Lets `buyer` reach the content of `p_id`. Only the owner may grant,
    /// and only to an account that has bought the listing; an unknown id
    /// changes nothing.
    pub fn grant_buyer_access(&mut self, p_id: u64, buyer: String, caller: String) -> (r: Result<
        (),
        AccessError,
    >)
        requires
            old(self).wf(),
        ensures
            final(self).wf(),
            r == old(self)@.grant_result(p_id, buyer@, caller@),
            final(self)@ == old(self)@.granted(p_id, buyer@, caller@),
    {
        let ghost pre = self@;
        match self.find_index(p_id) {
            None => Ok(()),
            Some(i) => {
                proof {
                    self.lemma_view_at(i as int);
                }
                if !(self.listings[i].owner == caller) {
                    return Err(AccessError::Authorization);
                }
                if !contains_account(&self.listings[i].buyers, &buyer) {
                    return Err(AccessError::Precondition);
                }
                proof {
                    lemma_granted_wf(pre.listings[i as int], buyer@);
                }
                let mut item = self.listings[i].duplicate();
                if !contains_account(&item.buyers_with_access, &buyer) {
                    let ghost b = item.buyers_with_access@;
                    let ghost c = buyer;
                    item.buyers_with_access.push(buyer);
                    proof {
                        lemma_account_seq_push(b, c);
                    }
                }
                assert(item@ == pre.listings[i as int].granted(buyer@));
                self.replace_listing(i, item);
                Ok(())
            },
        }
    }

    /// Takes access to the content of `p_id` away from `buyer`. Only the owner
    /// may revoke; revoking an account without access, or on an unknown id,
    /// changes nothing.
    pub fn revoke_buyer_access(&mut self, p_id: u64, buyer: String, caller: String) -> (r: Result<
        (),
        AccessError,
    >)
        requires
            old(self).wf(),
        ensures
            final(self).wf(),
            r == old(self)@.revoke_result(p_id, caller@),
            final(self)@ == old(self)@.revoked(p_id, buyer@, caller@),
    {
        let ghost pre = self@;
        match self.find_index(p_id) {
            None => Ok(()),
            Some(i) => {
                proof {
                    self.lemma_view_at(i as int);
                    lemma_revoked_wf(pre.listings[i as int], buyer@);
                }
                if !(self.listings[i].owner == caller) {
                    return Err(AccessError::Authorization);
                }
                let mut item = self.listings[i].duplicate();
                let excluded = vec![buyer];
                assert(account_seq(excluded@) =~= seq![buyer@]);
                item.buyers_with_access = accounts_without(&item.buyers_with_access, &excluded);
                assert(item@ == pre.listings[i as int].revoked(buyer@));
                self.replace_listing(i, item);
                Ok(())
            },
        }
    }

    /// The buyers of `p_id` without access, in purchase order; empty for an unknown id.
    pub fn get_pending_access_buyers(&self, p_id: u64) -> (r: Vec<String>)
        ensures
            account_seq(r@) == self@.pending_of(p_id),
    {
        match self.find_index(p_id) {
            Some(i) => {
                proof {
                    self.lemma_view_at(i as int);
                }
                accounts_without(&self.listings[i].buyers, &self.listings[i].buyers_with_access)
            },
            None => {
                let r: Vec<String> = Vec::new();
                assert(account_seq(r@) =~= Seq::<Seq<char>>::empty());
                r
            },
        }
    }

    /// The pending buyers of `p_id` that have a mapped account, each with that
    /// account; a pending buyer without one is left out.
    pub fn get_pending_buyers_with_nova_accounts(&self, p_id: u64) -> (r: Vec<(String, String)>)
        requires
            self.wf(),
        ensures
            pair_seq(r@) == with_mapped(self@.pending_of(p_id), self@.nova_accounts),
    {
        let pending = self.get_pending_access_buyers(p_id);
        let ghost ps = account_seq(pending@);
        let mut r: Vec<(String, String)> = Vec::new();
        let mut i: usize = 0;
        while i < pending.len()
            invariant
                self.wf(),
                0 <= i <= pending@.len(),
                ps == account_seq(pending@),
                pair_seq(r@) == with_mapped(ps.take(i as int), self@.nova_accounts),
            decreases pending@.len() - i,
        {
            let ghost pre_take = ps.take(i + 1);
            assert(pre_take.drop_last() =~= ps.take(i as int));
            assert(pre_take.last() == pending@[i as int]@);
            match self.nova_account_map.lookup(&pending[i]) {
                Some(x) => {
                    let e = (pending[i].clone(), x);
                    let ghost before = r@;
                    let ghost ge = e;
                    r.push(e);
                    proof {
                        lemma_pair_seq_push(before, ge);
                    }
                },
                None => {},
            }
            i = i + 1;
        }
        assert(ps.take(pending@.len() as int) =~= ps);
        r
    }

    /// The buyers of `p_id` with access; empty for an unknown id.
    pub fn get_buyers_with_access(&self, p_id: u64) -> (r: Vec<String>)
        ensures
            account_seq(r@) == self@.with_access_of(p_id),
    {
        match self.find_index(p_id) {
            Some(i) => {
                proof {
                    self.lemma_view_at(i as int);
                }
                copy_accounts(&self.listings[i].buyers_with_access)
            },
            None => {
                let r: Vec<String> = Vec::new();
                assert(account_seq(r@) =~= Seq::<Seq<char>>::empty());
                r
            },
        }
    }

    /// Whether `buyer` has access to `p_id`; false for an unknown id.
    pub fn has_access(&self, p_id: u64, buyer: String) -> (r: bool)
        ensures
            r == match self@.find(p_id) {
                Some(l) => l.buyers_with_access.contains(buyer@),
                None => false,
            },
    {
        match self.find_index(p_id) {
            Some(i) => {
                proof {
                    self.lemma_view_at(i as int);
                }
                contains_account(&self.listings[i].buyers_with_access, &buyer)
            },
            None => false,
        }
    }

    /// Whether `account_id` has bought `p_id`; false for an unknown id.
    pub fn has_purchased(&self, p_id: u64, account_id: String) -> (r: bool)
        ensures
            r == match self@.find(p_id) {
                Some(l) => l.buyers.contains(account_id@),
                None => false,
            },
    {
        match self.find_index(p_id) {
            Some(i) => {
                proof {
                    self.lemma_view_at(i as int);
                }
                contains_account(&self.listings[i].buyers, &account_id)
            },
            None => false,
        }
    }

    /// Rebuilds a ledger from its listings, in creation order, and the pairs of
    /// its account mapping, written in order. Refused when a listing repeats a
    /// buyer or grants access to an account that is not a buyer.
    pub fn from_parts(listings: Vec<Listing>, accounts: &Vec<(String, String)>) -> (r: Option<
        Contract,
    >)
        ensures
            match r {
                Some(c) => {
                    &&& c.wf()
                    &&& c@.listings == listing_views(listings@)
                    &&& c@.nova_accounts == mapping_of(pair_seq(accounts@))
                },
                None => exists|i: int| 0 <= i < listings@.len() && !(#[trigger] listings@[i]@).wf(),
            },
    {
        let mut i: usize = 0;
        while i < listings.len()
            invariant
                0 <= i <= listings@.len(),
                forall|j: int| 0 <= j < i ==> (#[trigger] listings@[j]@).wf(),
            decreases listings@.len() - i,
        {
            if !listings[i].is_well_formed() {
                return None;
            }
            i = i + 1;
        }
        let nova_account_map = IdentityMap::from_pairs(accounts);
        let c = Contract { listings, nova_account_map };
        assert(pair_seq(accounts@) == accounts@.map_values(|e: (String, String)| (e.0@, e.1@)));
        assert forall|j: int| 0 <= j < c@.listings.len() implies #[trigger] c@.listings[j].wf() by {
            assert(c@.listings[j] == c.listings@[j]@);
        }
        Some(c)
    }

    /// The pairs of the account mapping, each account once, in an unspecified order.
    pub fn account_entries(&self) -> (r: Vec<(String, String)>)
        requires
            self.wf(),
        ensures
            forall|i: int, j: int|
                0 <= i < r@.len() && 0 <= j < r@.len() && i != j ==> r@[i].0@ != r@[j].0@,
            forall|i: int|
                0 <= i < r@.len() ==> self@.nova_accounts.contains_key(#[trigger] r@[i].0@)
                    && self@.nova_accounts[r@[i].0@] == r@[i].1@,
            forall|k: Seq<char>|
                self@.nova_accounts.contains_key(k) ==> exists|i: int|
                    0 <= i < r@.len() && r@[i].0@ == k,
    {
        self.nova_account_map.entries()
    }

    /// The earliest created listing with id `p_id`, if there is one.
    pub fn get_listing(&self, p_id: u64) -> (r: Option<Listing>)
        ensures
            opt_listing_view(r) == self@.find(p_id),
    {
        match self.find_index(p_id) {
            Some(i) => {
                proof {
                    self.lemma_view_at(i as int);
                }
                Some(self.listings[i].duplicate())
            },
            None => None,
        }
    }
}

} // verus!
