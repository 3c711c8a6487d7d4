use vstd::prelude::*;

verus! {

/// The category a listing is filed under.
#[derive(Clone, Copy, Debug, PartialEq, Eq, Structural)]
pub enum ListingKind {
    Image,
    Dataset,
    Audio,
    Other,
}

/// The account names held in a vector, as character sequences.
pub open spec fn account_seq(v: Seq<String>) -> Seq<Seq<char>> {
    v.map_values(|a: String| a@)
}

/// One marketplace entry.
#[derive(Clone, Debug)]
pub struct Listing {
    pub product_id: u64,
    pub price: u32,
    pub nova_group_id: String,
    pub owner: String,
    pub purchase_number: u32,
    pub list_type: ListingKind,
    pub cid: String,
    pub is_active: bool,
    pub buyers: Vec<String>,
    pub buyers_with_access: Vec<String>,
    pub is_tee_verified: bool,
    pub tee_signature: Option<String>,
}

/// The mathematical model of a listing: strings as character sequences,
/// account lists as sequences of account names.
pub ghost struct ListingView {
    pub product_id: u64,
    pub price: u32,
    pub nova_group_id: Seq<char>,
    pub owner: Seq<char>,
    pub purchase_number: nat,
    pub list_type: ListingKind,
    pub cid: Seq<char>,
    pub is_active: bool,
    pub buyers: Seq<Seq<char>>,
    pub buyers_with_access: Seq<Seq<char>>,
    pub is_tee_verified: bool,
    pub tee_signature: Option<Seq<char>>,
}

/// The model of an optional string.
pub open spec fn opt_view(o: Option<String>) -> Option<Seq<char>> {
    match o {
        Some(s) => Some(s@),
        None => None,
    }
}

impl View for Listing {
    type V = ListingView;

    open spec fn view(&self) -> ListingView {
        ListingView {
            product_id: self.product_id,
            price: self.price,
            nova_group_id: self.nova_group_id@,
            owner: self.owner@,
            purchase_number: self.purchase_number as nat,
            list_type: self.list_type,
            cid: self.cid@,
            is_active: self.is_active,
            buyers: account_seq(self.buyers@),
            buyers_with_access: account_seq(self.buyers_with_access@),
            is_tee_verified: self.is_tee_verified,
            tee_signature: opt_view(self.tee_signature),
        }
    }
}

/// The accounts of `s` that are not in `excluded`, in their order in `s`.
pub open spec fn without_accounts(s: Seq<Seq<char>>, excluded: Seq<Seq<char>>) -> Seq<Seq<char>>
    decreases s.len(),
{
    if s.len() == 0 {
        s
    } else {
        let rest = without_accounts(s.drop_last(), excluded);
        if excluded.contains(s.last()) {
            rest
        } else {
            rest.push(s.last())
        }
    }
}

impl ListingView {
    /// A fresh listing: no purchases, no buyers, active.
    pub open spec fn fresh(
        product_id: u64,
        price: u32,
        nova_group_id: Seq<char>,
        list_type: ListingKind,
        cid: Seq<char>,
        owner: Seq<char>,
        is_tee_verified: bool,
        tee_signature: Option<Seq<char>>,
    ) -> ListingView {
        ListingView {
            product_id,
            price,
            nova_group_id,
            owner,
            purchase_number: 0,
            list_type,
            cid,
            is_active: true,
            buyers: Seq::empty(),
            buyers_with_access: Seq::empty(),
            is_tee_verified,
            tee_signature,
        }
    }

    /// Buyer lists hold no account twice and every account with access is a buyer.
    pub open spec fn wf(self) -> bool {
        &&& self.buyers.no_duplicates()
        &&& self.buyers_with_access.no_duplicates()
        &&& forall|a: Seq<char>| self.buyers_with_access.contains(a) ==> self.buyers.contains(a)
    }

    /// The listing after one purchase by `buyer`: the counter counts every call,
    /// the buyer list gains `buyer` only if it is absent.
    pub open spec fn purchased_by(self, buyer: Seq<char>) -> ListingView {
        ListingView {
            purchase_number: self.purchase_number + 1,
            buyers: if self.buyers.contains(buyer) {
                self.buyers
            } else {
                self.buyers.push(buyer)
            },
            ..self
        }
    }

    /// The listing after `buyer` is given access (no change if already given).
    pub open spec fn granted(self, buyer: Seq<char>) -> ListingView {
        ListingView {
            buyers_with_access: if self.buyers_with_access.contains(buyer) {
                self.buyers_with_access
            } else {
                self.buyers_with_access.push(buyer)
            },
            ..self
        }
    }

    /// The listing after `buyer` loses access (no change if it had none).
    pub open spec fn revoked(self, buyer: Seq<char>) -> ListingView {
        ListingView {
            buyers_with_access: without_accounts(self.buyers_with_access, seq![buyer]),
            ..self
        }
    }

    /// The buyers still waiting for access, in purchase order.
    pub open spec fn pending(self) -> Seq<Seq<char>> {
        without_accounts(self.buyers, self.buyers_with_access)
    }
}

/// Appending an account appends its name.
pub proof fn lemma_account_seq_push(s: Seq<String>, a: String)
    ensures
        account_seq(s.push(a)) == account_seq(s).push(a@),
{
    assert forall|j: int| 0 <= j < s.len() + 1 implies #[trigger] account_seq(s.push(a))[j]
        == account_seq(s).push(a@)[j] by {
        if j < s.len() {
            assert(s.push(a)[j] == s[j]);
        }
    }
    assert(account_seq(s.push(a)) =~= account_seq(s).push(a@));
}

/// The models of a sequence of listings.
pub open spec fn listing_views(s: Seq<Listing>) -> Seq<ListingView> {
    s.map_values(|l: Listing| l@)
}

/// Appending a listing appends its model.
pub proof fn lemma_listing_views_push(s: Seq<Listing>, l: Listing)
    ensures
        listing_views(s.push(l)) == listing_views(s).push(l@),
{
    assert forall|j: int| 0 <= j < s.len() + 1 implies #[trigger] listing_views(s.push(l))[j]
        == listing_views(s).push(l@)[j] by {
        if j < s.len() {
            assert(s.push(l)[j] == s[j]);
        }
    }
    assert(listing_views(s.push(l)) =~= listing_views(s).push(l@));
}

/// Replacing one listing replaces its model.
pub proof fn lemma_listing_views_update(s: Seq<Listing>, i: int, l: Listing)
    requires
        0 <= i < s.len(),
    ensures
        listing_views(s.update(i, l)) == listing_views(s).update(i, l@),
{
    assert forall|j: int| 0 <= j < s.len() implies #[trigger] listing_views(s.update(i, l))[j]
        == listing_views(s).update(i, l@)[j] by {
        if j != i {
            assert(s.update(i, l)[j] == s[j]);
        }
    }
    assert(listing_views(s.update(i, l)) =~= listing_views(s).update(i, l@));
}

/// The model of an optional listing.
pub open spec fn opt_listing_view(o: Option<Listing>) -> Option<ListingView> {
    match o {
        Some(l) => Some(l@),
        None => None,
    }
}

/// Appending an account that is absent keeps a list free of repeats.
pub proof fn lemma_push_absent(s: Seq<Seq<char>>, a: Seq<char>)
    requires
        s.no_duplicates(),
        !s.contains(a),
    ensures
        s.push(a).no_duplicates(),
        forall|x: Seq<char>| s.push(a).contains(x) <==> (s.contains(x) || x == a),
{
    let t = s.push(a);
    assert forall|i: int, j: int| 0 <= i < t.len() && 0 <= j < t.len() && i != j implies t[i]
        != t[j] by {
        if i < s.len() && j < s.len() {
            assert(t[i] == s[i] && t[j] == s[j]);
        } else if i < s.len() {
            assert(t[i] == s[i]);
        } else if j < s.len() {
            assert(t[j] == s[j]);
        }
    }
    assert forall|x: Seq<char>| t.contains(x) implies (s.contains(x) || x == a) by {
        let i = choose|i: int| 0 <= i < t.len() && t[i] == x;
        if i < s.len() {
            assert(s[i] == x);
        }
    }
    assert forall|x: Seq<char>| (s.contains(x) || x == a) implies t.contains(x) by {
        if x == a {
            assert(t[s.len() as int] == a);
        } else {
            let i = choose|i: int| 0 <= i < s.len() && s[i] == x;
            assert(t[i] == x);
        }
    }
}

/// Which accounts survive the removal of `excluded`, and that no repeat arises.
pub proof fn lemma_without_accounts(s: Seq<Seq<char>>, excluded: Seq<Seq<char>>)
    ensures
        forall|x: Seq<char>| without_accounts(s, excluded).contains(x) <==> (s.contains(x)
            && !excluded.contains(x)),
        s.no_duplicates() ==> without_accounts(s, excluded).no_duplicates(),
    decreases s.len(),
{
    if s.len() > 0 {
        let d = s.drop_last();
        lemma_without_accounts(d, excluded);
        let rest = without_accounts(d, excluded);
        assert(s =~= d.push(s.last()));
        assert forall|x: Seq<char>| s.contains(x) <==> (d.contains(x) || x == s.last()) by {
            if s.contains(x) {
                let i = choose|i: int| 0 <= i < s.len() && s[i] == x;
                if i < d.len() {
                    assert(d[i] == x);
                }
            }
            if d.contains(x) {
                let i = choose|i: int| 0 <= i < d.len() && d[i] == x;
                assert(s[i] == x);
            }
            if x == s.last() {
                assert(s[s.len() - 1] == x);
            }
        }
        if !excluded.contains(s.last()) {
            if s.no_duplicates() {
                assert(d.no_duplicates());
                assert(!d.contains(s.last())) by {
                    if d.contains(s.last()) {
                        let i = choose|i: int| 0 <= i < d.len() && d[i] == s.last();
                        assert(s[i] == s[s.len() - 1]);
                    }
                }
                lemma_push_absent(rest, s.last());
            } else {
                assert forall|x: Seq<char>| rest.push(s.last()).contains(x) <==> (rest.contains(x)
                    || x == s.last()) by {
                    if rest.push(s.last()).contains(x) {
                        let i = choose|i: int| 0 <= i < rest.len() + 1 && rest.push(s.last())[i] == x;
                        if i < rest.len() {
                            assert(rest[i] == x);
                        }
                    }
                    if rest.contains(x) {
                        let i = choose|i: int| 0 <= i < rest.len() && rest[i] == x;
                        assert(rest.push(s.last())[i] == x);
                    }
                    if x == s.last() {
                        assert(rest.push(s.last())[rest.len() as int] == x);
                    }
                }
            }
        } else {
            if s.no_duplicates() {
                assert(d.no_duplicates());
            }
        }
    }
}

/// A purchase keeps a listing well formed.
pub proof fn lemma_purchased_wf(l: ListingView, buyer: Seq<char>)
    requires
        l.wf(),
    ensures
        l.purchased_by(buyer).wf(),
{
    if !l.buyers.contains(buyer) {
        lemma_push_absent(l.buyers, buyer);
    }
}

/// Granting access to a buyer keeps a listing well formed.
pub proof fn lemma_granted_wf(l: ListingView, buyer: Seq<char>)
    requires
        l.wf(),
        l.buyers.contains(buyer),
    ensures
        l.granted(buyer).wf(),
{
    if !l.buyers_with_access.contains(buyer) {
        lemma_push_absent(l.buyers_with_access, buyer);
    }
}

/// Revoking access keeps a listing well formed.
pub proof fn lemma_revoked_wf(l: ListingView, buyer: Seq<char>)
    requires
        l.wf(),
    ensures
        l.revoked(buyer).wf(),
{
    lemma_without_accounts(l.buyers_with_access, seq![buyer]);
}

/// Whether `a` occurs among the accounts of `v`.
pub fn contains_account(v: &Vec<String>, a: &String) -> (r: bool)
    ensures
        r == account_seq(v@).contains(a@),
{
    let mut i: usize = 0;
    while i < v.len()
        invariant
            0 <= i <= v.len(),
            forall|j: int| 0 <= j < i ==> v@[j]@ != a@,
        decreases v.len() - i,
    {
        if v[i] == *a {
            assert(account_seq(v@)[i as int] == a@);
            return true;
        }
        i = i + 1;
    }
    assert forall|j: int| 0 <= j < account_seq(v@).len() implies account_seq(v@)[j] != a@ by {
        assert(account_seq(v@)[j] == v@[j]@);
    }
    false
}

/// Whether no account occurs twice in `v`.
pub fn accounts_distinct(v: &Vec<String>) -> (r: bool)
    ensures
        r == account_seq(v@).no_duplicates(),
{
    let mut i: usize = 0;
    while i < v.len()
        invariant
            0 <= i <= v.len(),
            forall|a: int, b: int| 0 <= a < i && 0 <= b < v.len() && a != b ==> v@[a]@ != v@[b]@,
        decreases v.len() - i,
    {
        let mut j: usize = 0;
        while j < v.len()
            invariant
                0 <= i < v.len(),
                0 <= j <= v.len(),
                forall|a: int, b: int| 0 <= a < i && 0 <= b < v.len() && a != b ==> v@[a]@ != v@[b]@,
                forall|b: int| 0 <= b < j && b != i ==> v@[i as int]@ != v@[b]@,
            decreases v.len() - j,
        {
            if j != i && v[i] == v[j] {
                assert(account_seq(v@)[i as int] == account_seq(v@)[j as int]);
                return false;
            }
            j = j + 1;
        }
        i = i + 1;
    }
    assert forall|a: int, b: int| 0 <= a < account_seq(v@).len() && 0 <= b < account_seq(v@).len()
        && a != b implies account_seq(v@)[a] != account_seq(v@)[b] by {
        assert(account_seq(v@)[a] == v@[a]@ && account_seq(v@)[b] == v@[b]@);
    }
    true
}

/// Whether every account of `sub` occurs in `sup`.
pub fn accounts_within(sub: &Vec<String>, sup: &Vec<String>) -> (r: bool)
    ensures
        r == forall|a: Seq<char>| account_seq(sub@).contains(a) ==> account_seq(sup@).contains(a),
{
    let mut i: usize = 0;
    while i < sub.len()
        invariant
            0 <= i <= sub.len(),
            forall|j: int| 0 <= j < i ==> account_seq(sup@).contains(#[trigger] sub@[j]@),
        decreases sub.len() - i,
    {
        if !contains_account(sup, &sub[i]) {
            assert(account_seq(sub@)[i as int] == sub@[i as int]@);
            return false;
        }
        i = i + 1;
    }
    assert forall|a: Seq<char>| account_seq(sub@).contains(a) implies account_seq(sup@).contains(a) by {
        let j = choose|j: int| 0 <= j < account_seq(sub@).len() && account_seq(sub@)[j] == a;
        assert(account_seq(sub@)[j] == sub@[j]@);
    }
    true
}

/// A copy of the accounts of `v`.
pub fn copy_accounts(v: &Vec<String>) -> (r: Vec<String>)
    ensures
        account_seq(r@) == account_seq(v@),
{
    let mut r: Vec<String> = Vec::new();
    let mut i: usize = 0;
    while i < v.len()
        invariant
            0 <= i <= v.len(),
            account_seq(r@) == account_seq(v@).take(i as int),
        decreases v.len() - i,
    {
        let a = v[i].clone();
        let ghost before = r@;
        r.push(a);
        assert(r@ == before.push(v@[i as int]));
        proof {
            lemma_account_seq_push(before, v@[i as int]);
        }
        assert(account_seq(v@).take(i + 1) =~= account_seq(v@).take(i as int).push(v@[i as int]@));
        i = i + 1;
    }
    assert(account_seq(v@).take(v.len() as int) =~= account_seq(v@));
    r
}

/// The accounts of `v` that do not occur in `excluded`, in their order in `v`.
pub fn accounts_without(v: &Vec<String>, excluded: &Vec<String>) -> (r: Vec<String>)
    ensures
        account_seq(r@) == without_accounts(account_seq(v@), account_seq(excluded@)),
{
    let mut r: Vec<String> = Vec::new();
    let mut i: usize = 0;
    while i < v.len()
        invariant
            0 <= i <= v.len(),
            account_seq(r@) == without_accounts(
                account_seq(v@).take(i as int),
                account_seq(excluded@),
            ),
        decreases v.len() - i,
    {
        let ghost pre = account_seq(v@).take(i + 1);
        assert(pre.drop_last() =~= account_seq(v@).take(i as int));
        assert(pre.last() == v@[i as int]@);
        if !contains_account(excluded, &v[i]) {
            let a = v[i].clone();
            let ghost before = r@;
            r.push(a);
            assert(r@ == before.push(v@[i as int]));
            proof {
                lemma_account_seq_push(before, v@[i as int]);
            }
            assert(account_seq(r@) =~= without_accounts(pre, account_seq(excluded@)));
        }
        i = i + 1;
    }
    assert(account_seq(v@).take(v.len() as int) =~= account_seq(v@));
    r
}

impl Listing {
    /// Whether this listing holds no repeated buyer and grants access only to buyers.
    pub fn is_well_formed(&self) -> (r: bool)
        ensures
            r == self@.wf(),
    {
        accounts_distinct(&self.buyers) && accounts_distinct(&self.buyers_with_access)
            && accounts_within(&self.buyers_with_access, &self.buyers)
    }

    /// A copy of this listing, equal to it in every field.
    pub fn duplicate(&self) -> (r: Listing)
        ensures
            r@ == self@,
    {
        let tee_signature = match &self.tee_signature {
            Some(s) => Some(s.clone()),
            None => None,
        };
        Listing {
            product_id: self.product_id,
            price: self.price,
            nova_group_id: self.nova_group_id.clone(),
            owner: self.owner.clone(),
            purchase_number: self.purchase_number,
            list_type: self.list_type,
            cid: self.cid.clone(),
            is_active: self.is_active,
            buyers: copy_accounts(&self.buyers),
            buyers_with_access: copy_accounts(&self.buyers_with_access),
            is_tee_verified: self.is_tee_verified,
            tee_signature,
        }
    }
}

} // verus!
