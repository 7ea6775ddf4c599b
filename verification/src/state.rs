use vstd::prelude::*;
use crate::balance::{GenericBalance, GenericBalanceV};

verus! {

// ---------------------------------------------------------------------------
// Stake records
// ---------------------------------------------------------------------------

/// One staker's deposit with its eligibility window, as the contracts see
/// it.
pub struct AccountInfoV {
    pub addr: Seq<char>,
    pub amount: u128,
    pub start_time: u64,
    pub end_time: u64,
}

/// One staker's deposit with its eligibility window. Never persisted on its
/// own: it is materialized from, and folded back into, the encoded stake
/// ledger string.
#[derive(Debug, PartialEq, Eq)]
pub struct AccountInfo {
    pub addr: String,
    pub amount: u128,
    pub start_time: u64,
    pub end_time: u64,
}

impl View for AccountInfo {
    type V = AccountInfoV;

    open spec fn view(&self) -> AccountInfoV {
        AccountInfoV {
            addr: self.addr@,
            amount: self.amount,
            start_time: self.start_time,
            end_time: self.end_time,
        }
    }
}

impl Clone for AccountInfo {
    fn clone(&self) -> (res: Self)
        ensures
            res@ == self@,
    {
        AccountInfo {
            addr: self.addr.clone(),
            amount: self.amount,
            start_time: self.start_time,
            end_time: self.end_time,
        }
    }
}

/// Merging one record into a record list: the amount is credited to the
/// first record of the same staker, and a staker without a record gets the
/// record appended.
pub open spec fn spec_add_account(s: Seq<AccountInfoV>, a: AccountInfoV) -> Seq<AccountInfoV>
    decreases s.len(),
{
    if s.len() == 0 {
        seq![a]
    } else if s[0].addr == a.addr {
        seq![
            AccountInfoV {
                addr: s[0].addr,
                amount: (s[0].amount + a.amount) as u128,
                start_time: s[0].start_time,
                end_time: s[0].end_time,
            },
        ] + s.skip(1)
    } else {
        seq![s[0]] + spec_add_account(s.skip(1), a)
    }
}

/// The first record a staker holds in a record list, if any: the one a
/// merge credits.
pub open spec fn spec_find_account(s: Seq<AccountInfoV>, addr: Seq<char>) -> Option<AccountInfoV>
    decreases s.len(),
{
    if s.len() == 0 {
        None
    } else if s[0].addr == addr {
        Some(s[0])
    } else {
        spec_find_account(s.skip(1), addr)
    }
}

/// A plain list of stake records.
#[derive(Debug, PartialEq, Eq)]
pub struct GenericAccount {
    pub account: Vec<AccountInfo>,
}

proof fn lemma_add_account_found(s: Seq<AccountInfoV>, a: AccountInfoV, i: int)
    requires
        0 <= i < s.len(),
        s[i].addr == a.addr,
        forall|j: int| 0 <= j < i ==> #[trigger] s[j].addr != a.addr,
    ensures
        spec_find_account(s, a.addr) == Some(s[i]),
        spec_add_account(s, a) == s.update(
            i,
            AccountInfoV {
                addr: s[i].addr,
                amount: (s[i].amount + a.amount) as u128,
                start_time: s[i].start_time,
                end_time: s[i].end_time,
            },
        ),
    decreases i,
{
    if i == 0 {
        assert(spec_add_account(s, a) =~= s.update(
            0,
            AccountInfoV {
                addr: s[0].addr,
                amount: (s[0].amount + a.amount) as u128,
                start_time: s[0].start_time,
                end_time: s[0].end_time,
            },
        ));
    } else {
        assert(forall|j: int| 0 <= j < i - 1 ==> #[trigger] s.skip(1)[j].addr != a.addr);
        lemma_add_account_found(s.skip(1), a, i - 1);
        assert(seq![s[0]] + spec_add_account(s.skip(1), a) =~= s.update(
            i,
            AccountInfoV {
                addr: s[i].addr,
                amount: (s[i].amount + a.amount) as u128,
                start_time: s[i].start_time,
                end_time: s[i].end_time,
            },
        ));
    }
}

proof fn lemma_add_account_missing(s: Seq<AccountInfoV>, a: AccountInfoV)
    requires
        forall|j: int| 0 <= j < s.len() ==> #[trigger] s[j].addr != a.addr,
    ensures
        spec_find_account(s, a.addr) is None,
        spec_add_account(s, a) == s.push(a),
    decreases s.len(),
{
    if s.len() == 0 {
        assert(spec_add_account(s, a) =~= s.push(a));
    } else {
        assert(forall|j: int| 0 <= j < s.skip(1).len() ==> #[trigger] s.skip(1)[j].addr != a.addr);
        lemma_add_account_missing(s.skip(1), a);
        assert(seq![s[0]] + s.skip(1).push(a) =~= s.push(a));
    }
}

impl GenericAccount {
    /// Credit the staker's existing record, or append a first one: see
    /// `spec_add_account`.
    pub fn add_account(&mut self, add: AccountInfo)
        requires
            spec_find_account(
                old(self).account@.map_values(|x: AccountInfo| x@),
                add@.addr,
            ) matches Some(r) ==> r.amount + add@.amount <= u128::MAX,
        ensures
            final(self).account@.map_values(|x: AccountInfo| x@) == spec_add_account(
                old(self).account@.map_values(|x: AccountInfo| x@),
                add@,
            ),
    {
        let ghost s = self.account@.map_values(|x: AccountInfo| x@);
        let mut i: usize = 0;
        while i < self.account.len()
            invariant
                i <= self.account.len(),
                self.account@.map_values(|x: AccountInfo| x@) == s,
                s == old(self).account@.map_values(|x: AccountInfo| x@),
                spec_find_account(s, add@.addr) matches Some(r) ==> r.amount + add@.amount
                    <= u128::MAX,
                forall|j: int| 0 <= j < i ==> #[trigger] s[j].addr != add@.addr,
            decreases self.account.len() - i,
        {
            if str_eq(self.account[i].addr.as_str(), add.addr.as_str()) {
                proof {
                    lemma_add_account_found(s, add@, i as int);
                }
                let prev = &self.account[i];
                let updated = AccountInfo {
                    addr: prev.addr.clone(),
                    amount: prev.amount + add.amount,
                    start_time: prev.start_time,
                    end_time: prev.end_time,
                };
                self.account[i] = updated;
                proof {
                    assert(self.account@.map_values(|x: AccountInfo| x@) =~= spec_add_account(
                        s,
                        add@,
                    ));
                }
                return ;
            }
            proof {
                assert(s[i as int] == self.account@[i as int]@);
            }
            i += 1;
        }
        proof {
            lemma_add_account_missing(s, add@);
        }
        self.account.push(add);
        proof {
            assert(self.account@.map_values(|x: AccountInfo| x@) =~= s.push(
                self.account@.last()@,
            ));
        }
    }
}

// ---------------------------------------------------------------------------
// Configuration
// ---------------------------------------------------------------------------

/// The contract-wide configuration, seen mathematically.
pub struct ConfigV {
    pub manager_addr: Seq<char>,
    pub min_stake: u64,
    pub rate_client: u64,
    pub rate_manager: u64,
}

impl ConfigV {
    /// A manager is set once the stored identity is non-empty.
    pub open spec fn manager_set(self) -> bool {
        self.manager_addr.len() > 0
    }

    /// Rates live in 0 to 100; rejected at configuration time, relied on at
    /// payout time.
    pub open spec fn wf(self) -> bool {
        self.rate_client <= 100 && self.rate_manager <= 100
    }
}

/// The contract-wide configuration: the arbitrating manager (empty until
/// first set), the minimum stake, and the two payout rates.
#[derive(Debug, PartialEq, Eq)]
pub struct Config {
    pub manager_addr: String,
    pub min_stake: u64,
    pub rate_client: u64,
    pub rate_manager: u64,
}

impl View for Config {
    type V = ConfigV;

    open spec fn view(&self) -> ConfigV {
        ConfigV {
            manager_addr: self.manager_addr@,
            min_stake: self.min_stake,
            rate_client: self.rate_client,
            rate_manager: self.rate_manager,
        }
    }
}

// ---------------------------------------------------------------------------
// The escrow aggregate
// ---------------------------------------------------------------------------

/// One escrow agreement, seen mathematically.
pub struct EscrowV {
    pub client: Seq<char>,
    pub account_info: Seq<char>,
    pub work_title: Seq<char>,
    pub work_desc: Seq<char>,
    pub work_url: Seq<char>,
    pub start_time: Option<u64>,
    pub account_min_stake_amount: u64,
    pub stake_amount: u64,
    pub balance: GenericBalanceV,
    pub cw20_whitelist: Seq<Seq<char>>,
    pub state: u8,
    pub image_url: Seq<char>,
}

impl EscrowV {
    /// Is there a tracked token yet? It is the token of the first token
    /// deposit, and all payout arithmetic reads its balance.
    pub open spec fn has_tracked(self) -> bool {
        self.balance.cw20.len() > 0
    }

    /// The tracked token's identifier.
    pub open spec fn tracked_token(self) -> Seq<char> {
        self.balance.cw20[0].key
    }

    /// The tracked token's balance; zero while no token was deposited.
    pub open spec fn tracked_balance(self) -> int {
        if self.balance.cw20.len() == 0 {
            0
        } else {
            self.balance.cw20[0].amount
        }
    }

    /// Does the whitelist accept token `k`?
    pub open spec fn in_whitelist(self, k: Seq<char>) -> bool {
        spec_contains_str(self.cw20_whitelist, k)
    }

    /// Has the start time been reached? The legacy name survives in the
    /// executable method `is_expired`; an escrow without a start time never
    /// reaches it.
    pub open spec fn spec_is_expired(self, block_time: u64) -> bool {
        match self.start_time {
            Some(st) => block_time > st,
            None => false,
        }
    }

    /// The aggregate invariant: a lifecycle state below four, a
    /// representable balance unique by key, every deposited token
    /// whitelisted, a tracked token as soon as the escrow leaves the funding
    /// state, and a fully staked tracked balance exactly in state one.
    pub open spec fn wf(self) -> bool {
        &&& self.state <= 3
        &&& self.balance.wf()
        &&& (self.state >= 1 ==> self.has_tracked())
        &&& (self.state == 1 ==> self.tracked_balance() >= self.stake_amount)
        &&& (forall|i: int|
            0 <= i < self.balance.cw20.len() ==> self.in_whitelist(
                (#[trigger] self.balance.cw20[i]).key,
            ))
    }
}

/// One escrow agreement: the work metadata, the required stake, the balance
/// ledger, the encoded stake ledger, and the lifecycle state 0 to 3.
#[derive(Debug, PartialEq, Eq)]
pub struct Escrow {
    /// The work requester; receives the first-tier payout.
    pub client: String,
    /// The encoded stake ledger.
    pub account_info: String,
    pub work_title: String,
    pub work_desc: String,
    pub work_url: String,
    pub start_time: Option<u64>,
    pub account_min_stake_amount: u64,
    pub stake_amount: u64,
    /// Balance in native and token holdings.
    pub balance: GenericBalance,
    /// All token contracts the escrow accepts deposits from.
    pub cw20_whitelist: Vec<String>,
    /// 0 created, 1 fully staked, 2 client paid, 3 manager paid.
    pub state: u8,
    pub image_url: String,
}

impl View for Escrow {
    type V = EscrowV;

    open spec fn view(&self) -> EscrowV {
        EscrowV {
            client: self.client@,
            account_info: self.account_info@,
            work_title: self.work_title@,
            work_desc: self.work_desc@,
            work_url: self.work_url@,
            start_time: self.start_time,
            account_min_stake_amount: self.account_min_stake_amount,
            stake_amount: self.stake_amount,
            balance: self.balance@,
            cw20_whitelist: self.cw20_whitelist@.map_values(|s: String| s@),
            state: self.state,
            image_url: self.image_url@,
        }
    }
}

/// Clone a string vector element by element, keeping the view.
pub fn clone_strings(v: &Vec<String>) -> (r: Vec<String>)
    ensures
        r@.map_values(|s: String| s@) == v@.map_values(|s: String| s@),
{
    let mut r: Vec<String> = Vec::new();
    let mut i: usize = 0;
    proof {
        assert(r@.map_values(|s: String| s@) =~= v@.map_values(|s: String| s@).take(0));
    }
    while i < v.len()
        invariant
            i <= v.len(),
            r@.len() == i,
            r@.map_values(|s: String| s@) == v@.map_values(|s: String| s@).take(i as int),
        decreases v.len() - i,
    {
        r.push(v[i].clone());
        proof {
            assert(r@.map_values(|s: String| s@) =~= v@.map_values(|s: String| s@).take(
                i as int + 1,
            ));
        }
        i += 1;
    }
    proof {
        assert(v@.map_values(|s: String| s@).take(v.len() as int) =~= v@.map_values(
            |s: String| s@,
        ));
    }
    r
}

impl Clone for Escrow {
    fn clone(&self) -> (res: Self)
        ensures
            res@ == self@,
    {
        Escrow {
            client: self.client.clone(),
            account_info: self.account_info.clone(),
            work_title: self.work_title.clone(),
            work_desc: self.work_desc.clone(),
            work_url: self.work_url.clone(),
            start_time: self.start_time,
            account_min_stake_amount: self.account_min_stake_amount,
            stake_amount: self.stake_amount,
            balance: self.balance.clone(),
            cw20_whitelist: clone_strings(&self.cw20_whitelist),
            state: self.state,
            image_url: self.image_url.clone(),
        }
    }
}

impl Escrow {
    /// Has the start time been reached? The legacy name is kept: the
    /// predicate reports that the work's start threshold has passed, not
    /// that anything expired.
    pub fn is_expired(&self, block_time: u64) -> (r: bool)
        ensures
            r == self@.spec_is_expired(block_time),
    {
        match self.start_time {
            Some(st) => block_time > st,
            None => false,
        }
    }

    /// The whitelist as plain strings.
    pub fn human_whitelist(&self) -> (r: Vec<String>)
        ensures
            r@.map_values(|s: String| s@) == self@.cw20_whitelist,
    {
        clone_strings(&self.cw20_whitelist)
    }
}

/// Does a list of identifiers hold `t`?
pub open spec fn spec_contains_str(w: Seq<Seq<char>>, t: Seq<char>) -> bool {
    exists|i: int| 0 <= i < w.len() && w[i] == t
}

/// Does the whitelist hold the token `t`?
pub fn whitelist_contains(v: &Vec<String>, t: &str) -> (r: bool)
    ensures
        r == spec_contains_str(v@.map_values(|s: String| s@), t@),
{
    let ghost w = v@.map_values(|s: String| s@);
    let mut i: usize = 0;
    while i < v.len()
        invariant
            i <= v.len(),
            w == v@.map_values(|s: String| s@),
            forall|j: int| 0 <= j < i ==> #[trigger] w[j] != t@,
        decreases v.len() - i,
    {
        proof {
            assert(w[i as int] == v@[i as int]@);
        }
        if str_eq(v[i].as_str(), t) {
            proof {
                assert(w[i as int] == t@);
            }
            return true;
        }
        i += 1;
    }
    false
}

// ---------------------------------------------------------------------------
// The escrow registry: an id-keyed store of escrow records, unique by id,
// in order of registration.
// ---------------------------------------------------------------------------

/// What a store holds under one id: the first binding wins, and the store's
/// invariant keeps bindings unique.
pub open spec fn store_get(s: Seq<(Seq<char>, EscrowV)>, id: Seq<char>) -> Option<EscrowV>
    decreases s.len(),
{
    if s.len() == 0 {
        None
    } else if s[0].0 == id {
        Some(s[0].1)
    } else {
        store_get(s.skip(1), id)
    }
}

/// A store after an upsert: an existing binding is replaced in place, a new
/// id is appended at the end.
pub open spec fn store_save(
    s: Seq<(Seq<char>, EscrowV)>,
    id: Seq<char>,
    e: EscrowV,
) -> Seq<(Seq<char>, EscrowV)>
    decreases s.len(),
{
    if s.len() == 0 {
        seq![(id, e)]
    } else if s[0].0 == id {
        seq![(id, e)] + s.skip(1)
    } else {
        seq![s[0]] + store_save(s.skip(1), id, e)
    }
}

/// A store after a deletion: the binding under `id` is gone, everything
/// else keeps its place.
pub open spec fn store_remove(s: Seq<(Seq<char>, EscrowV)>, id: Seq<char>) -> Seq<
    (Seq<char>, EscrowV),
>
    decreases s.len(),
{
    if s.len() == 0 {
        s
    } else if s[0].0 == id {
        s.skip(1)
    } else {
        seq![s[0]] + store_remove(s.skip(1), id)
    }
}

/// The registered ids, in order of registration.
pub open spec fn store_ids(s: Seq<(Seq<char>, EscrowV)>) -> Seq<Seq<char>> {
    s.map_values(|p: (Seq<char>, EscrowV)| p.0)
}

/// Ids unique and every record well formed.
pub open spec fn store_wf(s: Seq<(Seq<char>, EscrowV)>) -> bool {
    &&& (forall|i: int, j: int| 0 <= i < j < s.len() ==> s[i].0 != s[j].0)
    &&& (forall|i: int| 0 <= i < s.len() ==> (#[trigger] s[i].1).wf())
}

/// The id-keyed escrow registry. Each operation is atomic: the callers
/// observe either the old store or the new one, never a partial write.
pub struct EscrowStore {
    escrows: Vec<StoredEscrow>,
}

/// One binding of the registry: an id and its record.
pub struct StoredEscrow {
    id: String,
    escrow: Escrow,
}

impl View for EscrowStore {
    type V = Seq<(Seq<char>, EscrowV)>;

    closed spec fn view(&self) -> Seq<(Seq<char>, EscrowV)> {
        self.escrows@.map_values(|p: StoredEscrow| (p.id@, p.escrow@))
    }
}

/// Compare two strings character by character.
pub fn str_eq(a: &str, b: &str) -> (r: bool)
    ensures
        r == (a@ == b@),
{
    let la = a.unicode_len();
    let lb = b.unicode_len();
    if la != lb {
        proof {
            assert(a@.len() != b@.len());
        }
        return false;
    }
    let mut i: usize = 0;
    while i < la
        invariant
            la == a@.len(),
            la == b@.len(),
            0 <= i <= la,
            forall|j: int| 0 <= j < i ==> a@[j] == b@[j],
        decreases la - i,
    {
        if a.get_char(i) != b.get_char(i) {
            return false;
        }
        i += 1;
    }
    proof {
        assert(a@ =~= b@);
    }
    true
}

/// The shape of an upsert: every existing binding keeps its place and its
/// id; a fresh id lands in one new binding at the end.
pub proof fn lemma_store_save_shape(s: Seq<(Seq<char>, EscrowV)>, id: Seq<char>, e: EscrowV)
    ensures
        store_get(s, id) is Some ==> store_save(s, id, e).len() == s.len(),
        store_get(s, id) is None ==> store_save(s, id, e).len() == s.len() + 1,
        forall|m: int| 0 <= m < s.len() ==> (#[trigger] store_save(s, id, e)[m]).0 == s[m].0,
        forall|m: int|
            0 <= m < s.len() ==> (#[trigger] store_save(s, id, e)[m]).1 == s[m].1 || store_save(
                s,
                id,
                e,
            )[m].1 == e,
        store_get(s, id) is None ==> store_save(s, id, e)[s.len() as int] == (id, e),
    decreases s.len(),
{
    let t = store_save(s, id, e);
    if s.len() == 0 {
        assert(t == seq![(id, e)]);
    } else if s[0].0 == id {
        assert(t == seq![(id, e)] + s.skip(1));
        assert forall|m: int| 0 <= m < s.len() implies (#[trigger] t[m]).0 == s[m].0 && (t[m].1
            == s[m].1 || t[m].1 == e) by {
            if m > 0 {
                assert(t[m] == s.skip(1)[m - 1]);
                assert(s.skip(1)[m - 1] == s[m]);
            }
        }
    } else {
        lemma_store_save_shape(s.skip(1), id, e);
        let r = store_save(s.skip(1), id, e);
        assert(t == seq![s[0]] + r);
        assert(store_get(s, id) == store_get(s.skip(1), id));
        assert forall|m: int| 0 <= m < s.len() implies (#[trigger] t[m]).0 == s[m].0 && (t[m].1
            == s[m].1 || t[m].1 == e) by {
            if m > 0 {
                assert(t[m] == r[m - 1]);
                assert(r[m - 1].0 == s.skip(1)[m - 1].0);
                assert(s.skip(1)[m - 1] == s[m]);
            }
        }
        if store_get(s, id) is None {
            assert(t[s.len() as int] == r[s.skip(1).len() as int]);
        }
    }
}

/// Looking a key up after an upsert: the saved record under the saved id,
/// anything else untouched.
pub proof fn lemma_store_save_get(
    s: Seq<(Seq<char>, EscrowV)>,
    id: Seq<char>,
    e: EscrowV,
    k: Seq<char>,
)
    ensures
        store_get(store_save(s, id, e), k) == if k == id {
            Some(e)
        } else {
            store_get(s, k)
        },
    decreases s.len(),
{
    let t = store_save(s, id, e);
    if s.len() == 0 {
        assert(t == seq![(id, e)]);
        assert(t[0] == (id, e));
        assert(t.skip(1) =~= Seq::<(Seq<char>, EscrowV)>::empty());
        assert(store_get(Seq::<(Seq<char>, EscrowV)>::empty(), k) is None);
        if k != id {
            assert(store_get(t, k) == store_get(t.skip(1), k));
        }
    } else if s[0].0 == id {
        assert(t == seq![(id, e)] + s.skip(1));
        assert(t[0] == (id, e));
        assert(t.skip(1) =~= s.skip(1));
        if k != id {
            assert(store_get(t, k) == store_get(s.skip(1), k));
            assert(store_get(s, k) == store_get(s.skip(1), k));
        }
    } else {
        lemma_store_save_get(s.skip(1), id, e, k);
        let r = store_save(s.skip(1), id, e);
        assert(t == seq![s[0]] + r);
        assert(t[0] == s[0]);
        assert(t.skip(1) =~= r);
        if t[0].0 == k {
            assert(store_get(t, k) == Some(t[0].1));
            assert(store_get(s, k) == Some(s[0].1));
        } else {
            assert(store_get(t, k) == store_get(r, k));
            assert(store_get(s, k) == store_get(s.skip(1), k));
        }
    }
}

/// The id list after an upsert: unchanged when the id was bound, extended
/// by the id when it was new.
pub proof fn lemma_store_save_ids(s: Seq<(Seq<char>, EscrowV)>, id: Seq<char>, e: EscrowV)
    ensures
        store_ids(store_save(s, id, e)) == if store_get(s, id) is Some {
            store_ids(s)
        } else {
            store_ids(s).push(id)
        },
{
    let t = store_save(s, id, e);
    lemma_store_save_shape(s, id, e);
    assert(store_ids(t).len() == t.len());
    assert(store_ids(s).len() == s.len());
    if store_get(s, id) is Some {
        assert forall|m: int| 0 <= m < t.len() implies store_ids(t)[m] == store_ids(s)[m] by {
            assert(store_ids(t)[m] == t[m].0);
            assert(store_ids(s)[m] == s[m].0);
        }
        assert(store_ids(t) =~= store_ids(s));
    } else {
        assert forall|m: int| 0 <= m < t.len() implies store_ids(t)[m] == store_ids(s).push(
            id,
        )[m] by {
            assert(store_ids(t)[m] == t[m].0);
            if m < s.len() {
                assert(store_ids(s).push(id)[m] == s[m].0);
            } else {
                assert(t[m] == (id, e));
            }
        }
        assert(store_ids(t) =~= store_ids(s).push(id));
    }
}

/// What a well-formed store yields is well formed.
pub proof fn lemma_store_get_wf(s: Seq<(Seq<char>, EscrowV)>, id: Seq<char>)
    requires
        store_wf(s),
        store_get(s, id) is Some,
    ensures
        store_get(s, id)->Some_0.wf(),
    decreases s.len(),
{
    if s.len() > 0 {
        if s[0].0 == id {
            assert(s[0].1.wf());
        } else {
            assert(store_wf(s.skip(1))) by {
                assert forall|i: int, j: int| 0 <= i < j < s.skip(1).len() implies s.skip(1)[i].0
                    != s.skip(1)[j].0 by {
                    assert(s.skip(1)[i] == s[i + 1]);
                    assert(s.skip(1)[j] == s[j + 1]);
                }
                assert forall|i: int| 0 <= i < s.skip(1).len() implies (#[trigger] s.skip(
                    1,
                )[i].1).wf() by {
                    assert(s.skip(1)[i] == s[i + 1]);
                }
            }
            lemma_store_get_wf(s.skip(1), id);
        }
    }
}

/// A store that yields nothing under `id` binds no key to it.
pub proof fn lemma_store_get_none_keys(s: Seq<(Seq<char>, EscrowV)>, id: Seq<char>)
    requires
        store_get(s, id) is None,
    ensures
        forall|m: int| 0 <= m < s.len() ==> (#[trigger] s[m].0) != id,
    decreases s.len(),
{
    if s.len() > 0 {
        assert(s[0].0 != id);
        lemma_store_get_none_keys(s.skip(1), id);
        assert forall|m: int| 0 <= m < s.len() implies (#[trigger] s[m].0) != id by {
            if m > 0 {
                assert(s.skip(1)[m - 1] == s[m]);
            }
        }
    }
}

/// An upsert of a well-formed record keeps the store well formed.
pub proof fn lemma_store_save_wf(s: Seq<(Seq<char>, EscrowV)>, id: Seq<char>, e: EscrowV)
    requires
        store_wf(s),
        e.wf(),
    ensures
        store_wf(store_save(s, id, e)),
{
    let t = store_save(s, id, e);
    lemma_store_save_shape(s, id, e);
    if store_get(s, id) is None {
        lemma_store_get_none_keys(s, id);
    }
    assert forall|i: int, j: int| 0 <= i < j < t.len() implies t[i].0 != t[j].0 by {
        if j < s.len() {
            assert(t[i].0 == s[i].0);
            assert(t[j].0 == s[j].0);
        } else {
            assert(t[i].0 == s[i].0);
            assert(t[j].0 == id);
        }
    }
    assert forall|i: int| 0 <= i < t.len() implies (#[trigger] t[i].1).wf() by {
        if i < s.len() {
            assert(t[i].1 == s[i].1 || t[i].1 == e);
            assert(s[i].1.wf());
        } else {
            assert(t[i] == (id, e));
        }
    }
}

/// A store none of whose ids is `id` yields nothing under `id`.
pub proof fn lemma_store_get_none(s: Seq<(Seq<char>, EscrowV)>, id: Seq<char>)
    requires
        forall|i: int| 0 <= i < s.len() ==> (#[trigger] s[i].0) != id,
    ensures
        store_get(s, id) is None,
    decreases s.len(),
{
    if s.len() > 0 {
        assert forall|i: int| 0 <= i < s.skip(1).len() implies (#[trigger] s.skip(1)[i].0)
            != id by {
            assert(s.skip(1)[i] == s[i + 1]);
        }
        lemma_store_get_none(s.skip(1), id);
    }
}

/// Looking a key up after a deletion on a store with unique ids: the
/// deleted id is gone, anything else untouched.
pub proof fn lemma_store_remove_get(s: Seq<(Seq<char>, EscrowV)>, id: Seq<char>, k: Seq<char>)
    requires
        forall|i: int, j: int| 0 <= i < j < s.len() ==> s[i].0 != s[j].0,
    ensures
        store_get(store_remove(s, id), k) == if k == id {
            None::<EscrowV>
        } else {
            store_get(s, k)
        },
    decreases s.len(),
{
    let t = store_remove(s, id);
    if s.len() == 0 {
        assert(store_get(t, k) is None);
        assert(store_get(s, k) is None);
    } else if s[0].0 == id {
        assert(t == s.skip(1));
        if k == id {
            assert forall|i: int| 0 <= i < s.skip(1).len() implies (#[trigger] s.skip(1)[i].0)
                != id by {
                assert(s.skip(1)[i] == s[i + 1]);
            }
            lemma_store_get_none(s.skip(1), id);
        } else {
            assert(store_get(s, k) == store_get(s.skip(1), k));
        }
    } else {
        assert(forall|i: int, j: int|
            0 <= i < j < s.skip(1).len() ==> s.skip(1)[i].0 != s.skip(1)[j].0) by {
            assert forall|i: int, j: int| 0 <= i < j < s.skip(1).len() implies s.skip(1)[i].0
                != s.skip(1)[j].0 by {
                assert(s.skip(1)[i] == s[i + 1]);
                assert(s.skip(1)[j] == s[j + 1]);
            }
        }
        lemma_store_remove_get(s.skip(1), id, k);
        let r = store_remove(s.skip(1), id);
        assert(t == seq![s[0]] + r);
        assert(t[0] == s[0]);
        assert(t.skip(1) =~= r);
        if t[0].0 == k {
            assert(store_get(t, k) == Some(t[0].1));
            assert(store_get(s, k) == Some(s[0].1));
            assert(k != id);
        } else {
            assert(store_get(t, k) == store_get(r, k));
            assert(store_get(s, k) == store_get(s.skip(1), k));
        }
    }
}

/// The id list after a deletion: the first occurrence of the id is gone.
pub proof fn lemma_store_remove_ids(s: Seq<(Seq<char>, EscrowV)>, id: Seq<char>)
    ensures
        store_ids(store_remove(s, id)) == store_ids(s).remove_value(id),
    decreases s.len(),
{
    if s.len() == 0 {
        assert(store_ids(s).len() == 0);
        assert(!store_ids(s).contains(id));
        store_ids(s).index_of_first_ensures(id);
        assert(store_ids(s).remove_value(id) == store_ids(s));
    } else if s[0].0 == id {
        let ids = store_ids(s);
        assert(ids.len() == s.len());
        assert(ids[0] == id);
        ids.index_of_first_ensures(id);
        assert(ids.contains(id));
        match ids.index_of_first(id) {
            Some(i) => {
                assert(i == 0);
                assert(ids.remove_value(id) == ids.remove(0));
                assert(store_ids(s.skip(1)).len() == s.skip(1).len());
                assert(store_ids(s.skip(1)) =~= ids.remove(0));
            },
            None => {
                assert(false);
            },
        }
    } else {
        lemma_store_remove_ids(s.skip(1), id);
        let r = store_remove(s.skip(1), id);
        let t = seq![s[0]] + r;
        assert(store_ids(t).len() == t.len());
        assert(store_ids(r).len() == r.len());
        assert(store_ids(s).len() == s.len());
        assert(store_ids(s.skip(1)).len() == s.skip(1).len());
        assert(store_ids(t) =~= seq![s[0].0] + store_ids(r)) by {
            assert forall|m: int| 0 <= m < t.len() implies store_ids(t)[m] == (seq![s[0].0]
                + store_ids(r))[m] by {
                assert(store_ids(t)[m] == t[m].0);
                if m > 0 {
                    assert(t[m] == r[m - 1]);
                }
            }
        }
        assert(store_ids(s) =~= seq![s[0].0] + store_ids(s.skip(1))) by {
            assert forall|m: int| 0 <= m < s.len() implies store_ids(s)[m] == (seq![s[0].0]
                + store_ids(s.skip(1)))[m] by {
                assert(store_ids(s)[m] == s[m].0);
                if m > 0 {
                    assert(s.skip(1)[m - 1] == s[m]);
                }
            }
        }
        lemma_remove_value_cons(s[0].0, store_ids(s.skip(1)), id);
    }
}

/// `remove_value` walks past a non-matching head.
proof fn lemma_remove_value_cons(h: Seq<char>, rest: Seq<Seq<char>>, id: Seq<char>)
    requires
        h != id,
    ensures
        (seq![h] + rest).remove_value(id) == seq![h] + rest.remove_value(id),
{
    let s = seq![h] + rest;
    assert(s[0] == h);
    assert(s.skip(1) =~= rest);
    lemma_index_of_first_cons(h, rest, id);
    match rest.index_of_first(id) {
        Some(i) => {
            rest.index_of_first_ensures(id);
            s.index_of_first_ensures(id);
            assert(s.remove_value(id) == s.remove(i + 1));
            assert(s.remove(i + 1) =~= seq![h] + rest.remove(i));
        },
        None => {
            assert(s.remove_value(id) == s);
        },
    }
}

proof fn lemma_index_of_first_cons(h: Seq<char>, rest: Seq<Seq<char>>, id: Seq<char>)
    requires
        h != id,
    ensures
        (seq![h] + rest).index_of_first(id) == match rest.index_of_first(id) {
            Some(i) => Some(i + 1),
            None => None::<int>,
        },
{
    let s = seq![h] + rest;
    s.index_of_first_ensures(id);
    rest.index_of_first_ensures(id);
    assert(s.skip(1) =~= rest);
    match s.index_of_first(id) {
        Some(i) => {
            assert(s[i] == id);
            assert(i != 0);
            assert(rest[i - 1] == s[i]);
            match rest.index_of_first(id) {
                Some(j) => {
                    assert(rest[j] == id);
                    assert(s[j + 1] == id);
                    assert(!(j + 1 < i));
                    assert(!(i - 1 < j));
                },
                None => {
                    assert(rest.contains(id)) by {
                        assert(rest[i - 1] == id);
                    }
                    assert(false);
                },
            }
        },
        None => {
            match rest.index_of_first(id) {
                Some(j) => {
                    assert(rest[j] == id);
                    assert(s[j + 1] == id);
                    assert(s.contains(id));
                    assert(false);
                },
                None => {},
            }
        },
    }
}

/// Every binding that survives a deletion stood in the store before.
proof fn lemma_store_remove_sub(s: Seq<(Seq<char>, EscrowV)>, id: Seq<char>)
    ensures
        forall|j: int|
            0 <= j < store_remove(s, id).len() ==> exists|w: int|
                0 <= w < s.len() && s[w] == #[trigger] store_remove(s, id)[j],
    decreases s.len(),
{
    if s.len() == 0 {
    } else if s[0].0 == id {
        assert forall|j: int| 0 <= j < store_remove(s, id).len() implies exists|w: int|
            0 <= w < s.len() && s[w] == #[trigger] store_remove(s, id)[j] by {
            assert(s[j + 1] == store_remove(s, id)[j]);
        }
    } else {
        lemma_store_remove_sub(s.skip(1), id);
        let r = store_remove(s.skip(1), id);
        let t = seq![s[0]] + r;
        assert forall|j: int| 0 <= j < t.len() implies exists|w: int|
            0 <= w < s.len() && s[w] == #[trigger] t[j] by {
            if j == 0 {
                assert(s[0] == t[0]);
            } else {
                assert(t[j] == r[j - 1]);
                let w = choose|w: int| 0 <= w < s.skip(1).len() && s.skip(1)[w] == r[j - 1];
                assert(s[w + 1] == t[j]);
            }
        }
    }
}

/// A deletion keeps the store well formed.
pub proof fn lemma_store_remove_wf(s: Seq<(Seq<char>, EscrowV)>, id: Seq<char>)
    requires
        store_wf(s),
    ensures
        store_wf(store_remove(s, id)),
    decreases s.len(),
{
    if s.len() == 0 {
    } else if s[0].0 == id {
        assert forall|i: int, j: int| 0 <= i < j < s.skip(1).len() implies s.skip(1)[i].0 != s.skip(
            1,
        )[j].0 by {
            assert(s.skip(1)[i] == s[i + 1]);
            assert(s.skip(1)[j] == s[j + 1]);
        }
        assert forall|i: int| 0 <= i < s.skip(1).len() implies (#[trigger] s.skip(
            1,
        )[i].1).wf() by {
            assert(s.skip(1)[i] == s[i + 1]);
        }
    } else {
        assert(store_wf(s.skip(1))) by {
            assert forall|i: int, j: int| 0 <= i < j < s.skip(1).len() implies s.skip(1)[i].0
                != s.skip(1)[j].0 by {
                assert(s.skip(1)[i] == s[i + 1]);
                assert(s.skip(1)[j] == s[j + 1]);
            }
            assert forall|i: int| 0 <= i < s.skip(1).len() implies (#[trigger] s.skip(
                1,
            )[i].1).wf() by {
                assert(s.skip(1)[i] == s[i + 1]);
            }
        }
        lemma_store_remove_wf(s.skip(1), id);
        let r = store_remove(s.skip(1), id);
        let t = seq![s[0]] + r;
        lemma_store_remove_sub(s.skip(1), id);
        assert forall|i: int, j: int| 0 <= i < j < t.len() implies t[i].0 != t[j].0 by {
            if i == 0 {
                let w = choose|w: int| 0 <= w < s.skip(1).len() && s.skip(1)[w] == r[j - 1];
                assert(s[w + 1] == r[j - 1]);
            } else {
                assert(t[i] == r[i - 1]);
                assert(t[j] == r[j - 1]);
            }
        }
        assert forall|i: int| 0 <= i < t.len() implies (#[trigger] t[i].1).wf() by {
            if i > 0 {
                assert(t[i] == r[i - 1]);
            }
        }
    }
}

proof fn lemma_store_found(s: Seq<(Seq<char>, EscrowV)>, id: Seq<char>, i: int)
    requires
        0 <= i < s.len(),
        s[i].0 == id,
        forall|j: int| 0 <= j < i ==> (#[trigger] s[j].0) != id,
    ensures
        store_get(s, id) == Some(s[i].1),
        store_remove(s, id) == s.remove(i),
    decreases i,
{
    if i == 0 {
        assert(store_remove(s, id) =~= s.remove(0));
    } else {
        assert(forall|j: int| 0 <= j < i - 1 ==> (#[trigger] s.skip(1)[j].0) != id);
        lemma_store_found(s.skip(1), id, i - 1);
        assert(seq![s[0]] + store_remove(s.skip(1), id) =~= s.remove(i));
    }
}

proof fn lemma_store_save_found(s: Seq<(Seq<char>, EscrowV)>, id: Seq<char>, e: EscrowV, i: int)
    requires
        0 <= i < s.len(),
        s[i].0 == id,
        forall|j: int| 0 <= j < i ==> (#[trigger] s[j].0) != id,
    ensures
        store_save(s, id, e) == s.update(i, (id, e)),
    decreases i,
{
    if i == 0 {
        assert(store_save(s, id, e) =~= s.update(0, (id, e)));
    } else {
        assert(forall|j: int| 0 <= j < i - 1 ==> (#[trigger] s.skip(1)[j].0) != id);
        lemma_store_save_found(s.skip(1), id, e, i - 1);
        assert(seq![s[0]] + store_save(s.skip(1), id, e) =~= s.update(i, (id, e)));
    }
}

proof fn lemma_store_save_missing(s: Seq<(Seq<char>, EscrowV)>, id: Seq<char>, e: EscrowV)
    requires
        forall|j: int| 0 <= j < s.len() ==> (#[trigger] s[j].0) != id,
    ensures
        store_save(s, id, e) == s.push((id, e)),
    decreases s.len(),
{
    if s.len() == 0 {
        assert(store_save(s, id, e) =~= s.push((id, e)));
    } else {
        assert forall|j: int| 0 <= j < s.skip(1).len() implies (#[trigger] s.skip(1)[j].0)
            != id by {
            assert(s.skip(1)[j] == s[j + 1]);
        }
        lemma_store_save_missing(s.skip(1), id, e);
        assert(seq![s[0]] + s.skip(1).push((id, e)) =~= s.push((id, e)));
    }
}

proof fn lemma_store_remove_missing(s: Seq<(Seq<char>, EscrowV)>, id: Seq<char>)
    requires
        forall|j: int| 0 <= j < s.len() ==> (#[trigger] s[j].0) != id,
    ensures
        store_remove(s, id) == s,
    decreases s.len(),
{
    if s.len() == 0 {
    } else {
        assert forall|j: int| 0 <= j < s.skip(1).len() implies (#[trigger] s.skip(1)[j].0)
            != id by {
            assert(s.skip(1)[j] == s[j + 1]);
        }
        lemma_store_remove_missing(s.skip(1), id);
        assert(seq![s[0]] + s.skip(1) =~= s);
    }
}

impl EscrowStore {
    pub fn new() -> (r: EscrowStore)
        ensures
            r@ == Seq::<(Seq<char>, EscrowV)>::empty(),
    {
        let r = EscrowStore { escrows: Vec::new() };
        proof {
            assert(r@ =~= Seq::<(Seq<char>, EscrowV)>::empty());
        }
        r
    }

    /// Borrow the record registered under `id`, if any.
    pub fn get(&self, id: &str) -> (r: Option<&Escrow>)
        ensures
            match r {
                Some(e) => store_get(self@, id@) == Some(e@),
                None => store_get(self@, id@) is None,
            },
    {
        let ghost s = self@;
        let mut i: usize = 0;
        while i < self.escrows.len()
            invariant
                i <= self.escrows.len(),
                s == self@,
                s.len() == self.escrows.len(),
                forall|j: int| 0 <= j < i ==> (#[trigger] s[j].0) != id@,
            decreases self.escrows.len() - i,
        {
            proof {
                assert(s[i as int] == (self.escrows@[i as int].id@, self.escrows@[i as int].escrow@));
            }
            if str_eq(self.escrows[i].id.as_str(), id) {
                proof {
                    assert(s[i as int].0 == id@);
                    lemma_store_found(s, id@, i as int);
                }
                return Some(&self.escrows[i].escrow);
            }
            i += 1;
        }
        proof {
            lemma_store_get_none(s, id@);
        }
        None
    }

    /// Upsert: replace the record under `id` in place, or append a new
    /// binding.
    pub fn save(&mut self, id: &str, escrow: Escrow)
        ensures
            final(self)@ == store_save(old(self)@, id@, escrow@),
    {
        let ghost s = self@;
        let ghost ev = escrow@;
        let mut i: usize = 0;
        while i < self.escrows.len()
            invariant
                i <= self.escrows.len(),
                s == self@,
                s == old(self)@,
                s.len() == self.escrows.len(),
                ev == escrow@,
                forall|j: int| 0 <= j < i ==> (#[trigger] s[j].0) != id@,
            decreases self.escrows.len() - i,
        {
            proof {
                assert(s[i as int] == (self.escrows@[i as int].id@, self.escrows@[i as int].escrow@));
            }
            if str_eq(self.escrows[i].id.as_str(), id) {
                proof {
                    assert(s[i as int].0 == id@);
                    lemma_store_save_found(s, id@, ev, i as int);
                }
                self.escrows[i] = StoredEscrow { id: id.to_owned(), escrow };
                proof {
                    assert(self@ =~= s.update(i as int, (id@, ev)));
                }
                return ;
            }
            i += 1;
        }
        proof {
            lemma_store_save_missing(s, id@, ev);
        }
        self.escrows.push(StoredEscrow { id: id.to_owned(), escrow });
        proof {
            assert(self@ =~= s.push((id@, ev)));
        }
    }

    /// Delete the binding under `id`; a store without it stays as it is.
    pub fn remove(&mut self, id: &str)
        ensures
            final(self)@ == store_remove(old(self)@, id@),
    {
        let ghost s = self@;
        let mut i: usize = 0;
        while i < self.escrows.len()
            invariant
                i <= self.escrows.len(),
                s == self@,
                s == old(self)@,
                s.len() == self.escrows.len(),
                forall|j: int| 0 <= j < i ==> (#[trigger] s[j].0) != id@,
            decreases self.escrows.len() - i,
        {
            proof {
                assert(s[i as int] == (self.escrows@[i as int].id@, self.escrows@[i as int].escrow@));
            }
            if str_eq(self.escrows[i].id.as_str(), id) {
                proof {
                    assert(s[i as int].0 == id@);
                    lemma_store_found(s, id@, i as int);
                }
                self.escrows.remove(i);
                proof {
                    assert(self@ =~= s.remove(i as int));
                }
                return ;
            }
            i += 1;
        }
        proof {
            lemma_store_remove_missing(s, id@);
        }
    }

    /// How many escrows are registered.
    pub fn escrow_count(&self) -> (n: usize)
        ensures
            n == self@.len(),
    {
        self.escrows.len()
    }

    /// The id registered at position `i`.
    pub fn id_at(&self, i: usize) -> (r: String)
        requires
            i < self@.len(),
        ensures
            r@ == self@[i as int].0,
    {
        self.escrows[i].id.clone()
    }

    /// Borrow the record at position `i`.
    pub fn escrow_at(&self, i: usize) -> (r: &Escrow)
        requires
            i < self@.len(),
        ensures
            r@ == self@[i as int].1,
    {
        &self.escrows[i].escrow
    }
}

/// The list of ids of all registered escrows, in order of registration.
pub fn all_escrow_ids(store: &EscrowStore) -> (r: Vec<String>)
    ensures
        r@.map_values(|s: String| s@) == store_ids(store@),
{
    let mut r: Vec<String> = Vec::new();
    let mut i: usize = 0;
    let n = store.escrow_count();
    proof {
        assert(store_ids(store@).len() == store@.len());
        assert(r@.map_values(|s: String| s@) =~= store_ids(store@).take(0));
    }
    while i < n
        invariant
            i <= n,
            n == store@.len(),
            store_ids(store@).len() == n,
            r@.len() == i,
            r@.map_values(|s: String| s@) == store_ids(store@).take(i as int),
        decreases n - i,
    {
        r.push(store.id_at(i));
        proof {
            assert(store_ids(store@)[i as int] == store@[i as int].0);
            assert(r@.map_values(|s: String| s@) =~= store_ids(store@).take(i as int + 1));
        }
        i += 1;
    }
    proof {
        assert(store_ids(store@).take(n as int) =~= store_ids(store@));
    }
    r
}

} // verus!
