use vstd::prelude::*;

verus! {

// ---------------------------------------------------------------------------
// Mathematical model: a keyed ledger is a sequence of entries, unique by key,
// in order of first appearance. Amounts are unbounded integers in the model;
// the executable types carry `u128` and prove that every stored amount stays
// inside that range.
// ---------------------------------------------------------------------------

/// One keyed holding, as the contracts see it: a key (a denomination or a
/// token contract address) and an amount.
pub struct Entry {
    pub key: Seq<char>,
    pub amount: int,
}

/// Does some entry of `s` carry the key `k`?
pub open spec fn has_key(s: Seq<Entry>, k: Seq<char>) -> bool {
    exists|i: int| 0 <= i < s.len() && s[i].key == k
}

/// Merge one delta entry into a ledger: the first entry with the same key is
/// incremented; a missing key is appended at the end.
pub open spec fn add_entry(s: Seq<Entry>, e: Entry) -> Seq<Entry>
    decreases s.len(),
{
    if s.len() == 0 {
        seq![e]
    } else if s[0].key == e.key {
        seq![Entry { key: s[0].key, amount: s[0].amount + e.amount }] + s.skip(1)
    } else {
        seq![s[0]] + add_entry(s.skip(1), e)
    }
}

/// Merge a whole delta, entry by entry, left to right.
pub open spec fn add_entries(s: Seq<Entry>, d: Seq<Entry>) -> Seq<Entry>
    decreases d.len(),
{
    if d.len() == 0 {
        s
    } else {
        add_entries(add_entry(s, d[0]), d.skip(1))
    }
}

/// Subtract one delta entry: the first entry with the same key is
/// decremented. A missing key is appended with the delta's own amount, as if
/// it were new money; the legacy ledger behaves so, and the model keeps it.
pub open spec fn sub_entry(s: Seq<Entry>, e: Entry) -> Seq<Entry>
    decreases s.len(),
{
    if s.len() == 0 {
        seq![e]
    } else if s[0].key == e.key {
        seq![Entry { key: s[0].key, amount: s[0].amount - e.amount }] + s.skip(1)
    } else {
        seq![s[0]] + sub_entry(s.skip(1), e)
    }
}

/// Subtract a whole delta, entry by entry, left to right.
pub open spec fn sub_entries(s: Seq<Entry>, d: Seq<Entry>) -> Seq<Entry>
    decreases d.len(),
{
    if d.len() == 0 {
        s
    } else {
        sub_entries(sub_entry(s, d[0]), d.skip(1))
    }
}

/// The total amount a ledger holds under key `k`, summed over all entries.
/// On a ledger with unique keys this is the one entry's amount.
pub open spec fn total_of(s: Seq<Entry>, k: Seq<char>) -> int
    decreases s.len(),
{
    if s.len() == 0 {
        0
    } else {
        (if s[0].key == k {
            s[0].amount
        } else {
            0
        }) + total_of(s.skip(1), k)
    }
}

/// No key appears twice.
pub open spec fn keys_unique(s: Seq<Entry>) -> bool {
    forall|i: int, j: int| 0 <= i < j < s.len() ==> s[i].key != s[j].key
}

/// Every amount fits the executable representation.
pub open spec fn entries_bounded(s: Seq<Entry>) -> bool {
    forall|i: int| 0 <= i < s.len() ==> 0 <= #[trigger] s[i].amount <= u128::MAX
}

/// Every amount is non-negative.
pub open spec fn entries_nonneg(s: Seq<Entry>) -> bool {
    forall|i: int| 0 <= i < s.len() ==> #[trigger] s[i].amount >= 0
}

/// Every amount fits below the representation ceiling.
pub open spec fn entries_upper(s: Seq<Entry>) -> bool {
    forall|i: int| 0 <= i < s.len() ==> #[trigger] s[i].amount <= u128::MAX
}

/// Every amount is zero: such a delta moves no money.
pub open spec fn entries_zero(s: Seq<Entry>) -> bool {
    forall|i: int| 0 <= i < s.len() ==> #[trigger] s[i].amount == 0
}

// ---------------------------------------------------------------------------
// Executable types
// ---------------------------------------------------------------------------

/// An on-chain native holding, keyed by denomination.
#[derive(Debug, PartialEq, Eq)]
pub struct Coin {
    pub denom: String,
    pub amount: u128,
}

impl View for Coin {
    type V = Entry;

    open spec fn view(&self) -> Entry {
        Entry { key: self.denom@, amount: self.amount as int }
    }
}

impl Clone for Coin {
    fn clone(&self) -> (res: Self)
        ensures
            res == *self,
    {
        Coin { denom: self.denom.clone(), amount: self.amount }
    }
}

/// A token holding, keyed by the issuing contract address.
#[derive(Debug, PartialEq, Eq)]
pub struct Cw20Coin {
    pub address: String,
    pub amount: u128,
}

impl View for Cw20Coin {
    type V = Entry;

    open spec fn view(&self) -> Entry {
        Entry { key: self.address@, amount: self.amount as int }
    }
}

impl Clone for Cw20Coin {
    fn clone(&self) -> (res: Self)
        ensures
            res == *self,
    {
        Cw20Coin { address: self.address.clone(), amount: self.amount }
    }
}

/// Funds accompanying a create or top-up: either a batch of native coins or
/// one token deposit.
#[derive(Debug, PartialEq, Eq)]
pub enum Balance {
    Native(Vec<Coin>),
    Cw20(Cw20Coin),
}

/// The native part of a funds delta.
pub open spec fn native_delta(b: Balance) -> Seq<Entry> {
    match b {
        Balance::Native(coins) => coins@.map_values(|c: Coin| c@),
        Balance::Cw20(_) => Seq::empty(),
    }
}

/// The token part of a funds delta.
pub open spec fn cw20_delta(b: Balance) -> Seq<Entry> {
    match b {
        Balance::Native(_) => Seq::empty(),
        Balance::Cw20(token) => seq![token@],
    }
}

impl Balance {
    /// A funds value is empty when it moves no money: every native amount is
    /// zero, or the one token amount is zero.
    pub open spec fn spec_is_empty(self) -> bool {
        match self {
            Balance::Native(coins) => entries_zero(coins@.map_values(|c: Coin| c@)),
            Balance::Cw20(token) => token@.amount == 0,
        }
    }

    pub fn is_empty(&self) -> (r: bool)
        ensures
            r == self.spec_is_empty(),
    {
        match self {
            Balance::Native(coins) => {
                let ghost s = coins@.map_values(|c: Coin| c@);
                let mut i: usize = 0;
                while i < coins.len()
                    invariant
                        i <= coins.len(),
                        s == coins@.map_values(|c: Coin| c@),
                        self.spec_is_empty() == entries_zero(s),
                        forall|j: int| 0 <= j < i ==> #[trigger] s[j].amount == 0,
                    decreases coins.len() - i,
                {
                    if coins[i].amount != 0 {
                        proof {
                            assert(s[i as int].amount != 0);
                        }
                        return false;
                    }
                    proof {
                        assert(s[i as int] == coins@[i as int]@);
                    }
                    i += 1;
                }
                true
            },
            Balance::Cw20(token) => token.amount == 0,
        }
    }
}

/// The two-sided balance ledger of one escrow, seen mathematically.
pub struct GenericBalanceV {
    pub native: Seq<Entry>,
    pub cw20: Seq<Entry>,
}

/// The two-sided balance ledger of one escrow: native holdings keyed by
/// denomination, token holdings keyed by contract address.
#[derive(Debug, PartialEq, Eq)]
pub struct GenericBalance {
    pub native: Vec<Coin>,
    pub cw20: Vec<Cw20Coin>,
}

impl View for GenericBalance {
    type V = GenericBalanceV;

    open spec fn view(&self) -> GenericBalanceV {
        GenericBalanceV {
            native: self.native@.map_values(|c: Coin| c@),
            cw20: self.cw20@.map_values(|c: Cw20Coin| c@),
        }
    }
}

impl GenericBalanceV {
    /// Both sides unique by key and representable.
    pub open spec fn wf(self) -> bool {
        &&& keys_unique(self.native)
        &&& keys_unique(self.cw20)
        &&& entries_bounded(self.native)
        &&& entries_bounded(self.cw20)
    }
}

// ---------------------------------------------------------------------------
// Lemmas relating the first matching index to the recursive merge, used to
// verify the executable loops.
// ---------------------------------------------------------------------------

pub proof fn lemma_add_entry_found(s: Seq<Entry>, e: Entry, i: int)
    requires
        0 <= i < s.len(),
        s[i].key == e.key,
        forall|j: int| 0 <= j < i ==> s[j].key != e.key,
    ensures
        add_entry(s, e) == s.update(i, Entry { key: s[i].key, amount: s[i].amount + e.amount }),
    decreases i,
{
    if i == 0 {
        assert(add_entry(s, e) =~= s.update(
            0,
            Entry { key: s[0].key, amount: s[0].amount + e.amount },
        ));
    } else {
        assert(forall|j: int| 0 <= j < i - 1 ==> s.skip(1)[j].key != e.key);
        lemma_add_entry_found(s.skip(1), e, i - 1);
        assert(seq![s[0]] + add_entry(s.skip(1), e) =~= s.update(
            i,
            Entry { key: s[i].key, amount: s[i].amount + e.amount },
        ));
    }
}

proof fn lemma_add_entry_missing(s: Seq<Entry>, e: Entry)
    requires
        !has_key(s, e.key),
    ensures
        add_entry(s, e) == s.push(e),
    decreases s.len(),
{
    if s.len() == 0 {
        assert(add_entry(s, e) =~= s.push(e));
    } else {
        assert(!has_key(s.skip(1), e.key)) by {
            assert forall|j: int| 0 <= j < s.skip(1).len() implies s.skip(1)[j].key != e.key by {
                assert(s.skip(1)[j] == s[j + 1]);
            }
        }
        lemma_add_entry_missing(s.skip(1), e);
        assert(seq![s[0]] + s.skip(1).push(e) =~= s.push(e));
    }
}

pub proof fn lemma_sub_entry_found(s: Seq<Entry>, e: Entry, i: int)
    requires
        0 <= i < s.len(),
        s[i].key == e.key,
        forall|j: int| 0 <= j < i ==> s[j].key != e.key,
    ensures
        sub_entry(s, e) == s.update(i, Entry { key: s[i].key, amount: s[i].amount - e.amount }),
    decreases i,
{
    if i == 0 {
        assert(sub_entry(s, e) =~= s.update(
            0,
            Entry { key: s[0].key, amount: s[0].amount - e.amount },
        ));
    } else {
        assert(forall|j: int| 0 <= j < i - 1 ==> s.skip(1)[j].key != e.key);
        lemma_sub_entry_found(s.skip(1), e, i - 1);
        assert(seq![s[0]] + sub_entry(s.skip(1), e) =~= s.update(
            i,
            Entry { key: s[i].key, amount: s[i].amount - e.amount },
        ));
    }
}

proof fn lemma_sub_entry_missing(s: Seq<Entry>, e: Entry)
    requires
        !has_key(s, e.key),
    ensures
        sub_entry(s, e) == s.push(e),
    decreases s.len(),
{
    if s.len() == 0 {
        assert(sub_entry(s, e) =~= s.push(e));
    } else {
        assert(!has_key(s.skip(1), e.key)) by {
            assert forall|j: int| 0 <= j < s.skip(1).len() implies s.skip(1)[j].key != e.key by {
                assert(s.skip(1)[j] == s[j + 1]);
            }
        }
        lemma_sub_entry_missing(s.skip(1), e);
        assert(seq![s[0]] + s.skip(1).push(e) =~= s.push(e));
    }
}

/// Subtracting a one-entry delta is one subtraction.
pub proof fn lemma_sub_entries_single(s: Seq<Entry>, e: Entry)
    ensures
        sub_entries(s, seq![e]) == sub_entry(s, e),
{
    assert(seq![e][0] == e);
    assert(seq![e].skip(1) =~= Seq::<Entry>::empty());
    assert(sub_entries(s, seq![e]) == sub_entries(sub_entry(s, e), seq![e].skip(1)));
    assert(sub_entries(sub_entry(s, e), Seq::<Entry>::empty()) == sub_entry(s, e));
}

// ---------------------------------------------------------------------------
// Structural lemmas on the merge, public because they are the stated laws of
// the ledger: merging is associative across deltas, additive per key, and
// two deltas on one key collapse into their sum.
// ---------------------------------------------------------------------------

/// Merging one more delta entry at the end.
pub proof fn lemma_add_entries_snoc(s: Seq<Entry>, d: Seq<Entry>, e: Entry)
    ensures
        add_entries(s, d.push(e)) == add_entry(add_entries(s, d), e),
    decreases d.len(),
{
    if d.len() == 0 {
        assert(d.push(e)[0] == e);
        assert(d.push(e).skip(1) =~= Seq::<Entry>::empty());
        assert(add_entries(s, d.push(e)) == add_entries(add_entry(s, e), Seq::<Entry>::empty()));
        assert(add_entries(add_entry(s, e), Seq::<Entry>::empty()) == add_entry(s, e));
        assert(add_entries(s, d) == s);
    } else {
        assert(d.push(e)[0] == d[0]);
        assert(d.push(e).skip(1) =~= d.skip(1).push(e));
        assert(add_entries(s, d.push(e)) == add_entries(add_entry(s, d[0]), d.skip(1).push(e)));
        lemma_add_entries_snoc(add_entry(s, d[0]), d.skip(1), e);
        assert(add_entries(s, d) == add_entries(add_entry(s, d[0]), d.skip(1)));
    }
}

/// Subtracting one more delta entry at the end.
pub proof fn lemma_sub_entries_snoc(s: Seq<Entry>, d: Seq<Entry>, e: Entry)
    ensures
        sub_entries(s, d.push(e)) == sub_entry(sub_entries(s, d), e),
    decreases d.len(),
{
    if d.len() == 0 {
        assert(d.push(e)[0] == e);
        assert(d.push(e).skip(1) =~= Seq::<Entry>::empty());
        assert(sub_entries(s, d.push(e)) == sub_entries(sub_entry(s, e), Seq::<Entry>::empty()));
        assert(sub_entries(sub_entry(s, e), Seq::<Entry>::empty()) == sub_entry(s, e));
        assert(sub_entries(s, d) == s);
    } else {
        assert(d.push(e)[0] == d[0]);
        assert(d.push(e).skip(1) =~= d.skip(1).push(e));
        assert(sub_entries(s, d.push(e)) == sub_entries(sub_entry(s, d[0]), d.skip(1).push(e)));
        lemma_sub_entries_snoc(sub_entry(s, d[0]), d.skip(1), e);
        assert(sub_entries(s, d) == sub_entries(sub_entry(s, d[0]), d.skip(1)));
    }
}

/// Merging two deltas one after the other merges their concatenation:
/// the associativity of the ledger merge.
pub proof fn lemma_add_entries_concat(s: Seq<Entry>, d1: Seq<Entry>, d2: Seq<Entry>)
    ensures
        add_entries(s, d1 + d2) == add_entries(add_entries(s, d1), d2),
    decreases d1.len(),
{
    if d1.len() == 0 {
        assert(d1 + d2 =~= d2);
    } else {
        assert((d1 + d2)[0] == d1[0]);
        assert((d1 + d2).skip(1) =~= d1.skip(1) + d2);
        lemma_add_entries_concat(add_entry(s, d1[0]), d1.skip(1), d2);
    }
}

/// Subtracting two deltas one after the other subtracts their concatenation.
pub proof fn lemma_sub_entries_concat(s: Seq<Entry>, d1: Seq<Entry>, d2: Seq<Entry>)
    ensures
        sub_entries(s, d1 + d2) == sub_entries(sub_entries(s, d1), d2),
    decreases d1.len(),
{
    if d1.len() == 0 {
        assert(d1 + d2 =~= d2);
    } else {
        assert((d1 + d2)[0] == d1[0]);
        assert((d1 + d2).skip(1) =~= d1.skip(1) + d2);
        lemma_sub_entries_concat(sub_entry(s, d1[0]), d1.skip(1), d2);
    }
}

/// Merging one entry adds its amount to the total under its key and leaves
/// every other key's total alone.
pub proof fn lemma_add_entry_total(s: Seq<Entry>, e: Entry, k: Seq<char>)
    ensures
        total_of(add_entry(s, e), k) == total_of(s, k) + (if e.key == k {
            e.amount
        } else {
            0
        }),
    decreases s.len(),
{
    if s.len() == 0 {
        assert(total_of(seq![e], k) == (if e.key == k {
            e.amount
        } else {
            0
        }) + total_of(seq![e].skip(1), k));
        assert(seq![e].skip(1) =~= Seq::<Entry>::empty());
    } else if s[0].key == e.key {
        let merged = seq![Entry { key: s[0].key, amount: s[0].amount + e.amount }] + s.skip(1);
        assert(merged.skip(1) =~= s.skip(1));
    } else {
        lemma_add_entry_total(s.skip(1), e, k);
        let merged = seq![s[0]] + add_entry(s.skip(1), e);
        assert(merged.skip(1) =~= add_entry(s.skip(1), e));
    }
}

/// Merging a delta adds its per-key totals: the per-key additivity law.
/// Together with the associativity above it makes the merge commutative per
/// key: deltas merged in either order leave every key the same total.
pub proof fn lemma_add_entries_total(s: Seq<Entry>, d: Seq<Entry>, k: Seq<char>)
    ensures
        total_of(add_entries(s, d), k) == total_of(s, k) + total_of(d, k),
    decreases d.len(),
{
    if d.len() == 0 {
    } else {
        lemma_add_entry_total(s, d[0], k);
        lemma_add_entries_total(add_entry(s, d[0]), d.skip(1), k);
    }
}

/// Two merges on one key collapse into a single merge of the summed amount:
/// adding `x` then `y` under key `k` is adding `x + y` once.
pub proof fn lemma_add_same_key_merges(s: Seq<Entry>, k: Seq<char>, x: int, y: int)
    ensures
        add_entry(add_entry(s, Entry { key: k, amount: x }), Entry { key: k, amount: y })
            == add_entry(s, Entry { key: k, amount: x + y }),
    decreases s.len(),
{
    let ex = Entry { key: k, amount: x };
    let ey = Entry { key: k, amount: y };
    let exy = Entry { key: k, amount: x + y };
    if s.len() == 0 {
        assert(add_entry(add_entry(s, ex), ey) =~= add_entry(s, exy));
    } else if s[0].key == k {
        let once = seq![Entry { key: s[0].key, amount: s[0].amount + x }] + s.skip(1);
        assert(once[0].key == k);
        assert(once.skip(1) =~= s.skip(1));
        assert(add_entry(add_entry(s, ex), ey) =~= add_entry(s, exy));
    } else {
        lemma_add_same_key_merges(s.skip(1), k, x, y);
        let once = seq![s[0]] + add_entry(s.skip(1), ex);
        assert(once[0] == s[0]);
        assert(once.skip(1) =~= add_entry(s.skip(1), ex));
        assert(add_entry(add_entry(s, ex), ey) =~= add_entry(s, exy));
    }
}

/// Merging keeps keys unique.
pub proof fn lemma_add_entry_unique(s: Seq<Entry>, e: Entry)
    requires
        keys_unique(s),
    ensures
        keys_unique(add_entry(s, e)),
    decreases s.len(),
{
    let t = add_entry(s, e);
    if s.len() == 0 {
    } else if s[0].key == e.key {
        assert forall|i: int, j: int| 0 <= i < j < t.len() implies t[i].key != t[j].key by {
            if i > 0 {
                assert(t[i] == s[i]);
            }
            assert(t[j] == s[j]);
            assert(t[0].key == s[0].key);
        }
    } else {
        assert(keys_unique(s.skip(1))) by {
            assert forall|i: int, j: int| 0 <= i < j < s.skip(1).len() implies s.skip(1)[i].key
                != s.skip(1)[j].key by {
                assert(s.skip(1)[i] == s[i + 1]);
                assert(s.skip(1)[j] == s[j + 1]);
            }
        }
        lemma_add_entry_unique(s.skip(1), e);
        lemma_add_entry_keys(s.skip(1), e);
        let r = add_entry(s.skip(1), e);
        assert forall|i: int, j: int| 0 <= i < j < t.len() implies t[i].key != t[j].key by {
            if i == 0 {
                assert(t[j] == r[j - 1]);
                assert(r[j - 1].key == e.key || has_key(s.skip(1), r[j - 1].key));
                if has_key(s.skip(1), r[j - 1].key) {
                    let w = choose|w: int|
                        0 <= w < s.skip(1).len() && s.skip(1)[w].key == r[j - 1].key;
                    assert(s[w + 1].key == r[j - 1].key);
                }
            } else {
                assert(t[i] == r[i - 1]);
                assert(t[j] == r[j - 1]);
            }
        }
    }
}

/// Every key after a merge was there before or came with the delta entry.
pub proof fn lemma_add_entry_keys(s: Seq<Entry>, e: Entry)
    ensures
        forall|i: int|
            0 <= i < add_entry(s, e).len() ==> (#[trigger] add_entry(s, e)[i]).key == e.key
                || has_key(s, add_entry(s, e)[i].key),
    decreases s.len(),
{
    let t = add_entry(s, e);
    if s.len() == 0 {
    } else if s[0].key == e.key {
        assert forall|i: int| 0 <= i < t.len() implies (#[trigger] t[i]).key == e.key || has_key(
            s,
            t[i].key,
        ) by {
            if i > 0 {
                assert(t[i] == s[i]);
            }
        }
    } else {
        lemma_add_entry_keys(s.skip(1), e);
        let r = add_entry(s.skip(1), e);
        assert forall|i: int| 0 <= i < t.len() implies (#[trigger] t[i]).key == e.key || has_key(
            s,
            t[i].key,
        ) by {
            if i > 0 {
                assert(t[i] == r[i - 1]);
                assert(r[i - 1].key == e.key || has_key(s.skip(1), r[i - 1].key));
                if has_key(s.skip(1), r[i - 1].key) {
                    let w = choose|w: int|
                        0 <= w < s.skip(1).len() && s.skip(1)[w].key == r[i - 1].key;
                    assert(s[w + 1].key == r[i - 1].key);
                }
            }
        }
    }
}

/// Merging a whole delta keeps keys unique.
pub proof fn lemma_add_entries_unique(s: Seq<Entry>, d: Seq<Entry>)
    requires
        keys_unique(s),
    ensures
        keys_unique(add_entries(s, d)),
    decreases d.len(),
{
    if d.len() == 0 {
    } else {
        lemma_add_entry_unique(s, d[0]);
        lemma_add_entries_unique(add_entry(s, d[0]), d.skip(1));
    }
}

/// The first entry's key survives a merge, and on a non-empty ledger the
/// first entry's amount grows exactly by what the delta entry adds to its
/// key.
pub proof fn lemma_add_entry_first(s: Seq<Entry>, e: Entry)
    requires
        s.len() > 0,
    ensures
        add_entry(s, e).len() == s.len() || add_entry(s, e).len() == s.len() + 1,
        add_entry(s, e)[0].key == s[0].key,
        add_entry(s, e)[0].amount == s[0].amount + (if s[0].key == e.key {
            e.amount
        } else {
            0
        }),
    decreases s.len(),
{
    if s[0].key == e.key {
    } else if s.len() == 1 {
        assert(add_entry(s, e) == seq![s[0]] + add_entry(s.skip(1), e));
        assert(add_entry(s.skip(1), e) == seq![e]);
        assert((seq![s[0]] + seq![e]).len() == 2);
    } else {
        lemma_add_entry_first(s.skip(1), e);
    }
}

/// Merging two deltas in either order leaves every key the same total: the
/// merge is commutative per key.
pub proof fn lemma_add_commutative_per_key(
    s: Seq<Entry>,
    d1: Seq<Entry>,
    d2: Seq<Entry>,
    k: Seq<char>,
)
    ensures
        total_of(add_entries(add_entries(s, d1), d2), k) == total_of(
            add_entries(add_entries(s, d2), d1),
            k,
        ),
{
    lemma_add_entries_total(s, d1, k);
    lemma_add_entries_total(add_entries(s, d1), d2, k);
    lemma_add_entries_total(s, d2, k);
    lemma_add_entries_total(add_entries(s, d2), d1, k);
}

// ---------------------------------------------------------------------------
// Monotonicity lemmas: they bound the intermediate states of the executable
// loops by the initial and final states.
// ---------------------------------------------------------------------------

proof fn lemma_add_entry_mono(s: Seq<Entry>, e: Entry)
    requires
        e.amount >= 0,
    ensures
        add_entry(s, e).len() >= s.len(),
        forall|i: int|
            0 <= i < s.len() ==> (#[trigger] add_entry(s, e)[i]).key == s[i].key && add_entry(
                s,
                e,
            )[i].amount >= s[i].amount,
    decreases s.len(),
{
    if s.len() == 0 {
    } else if s[0].key == e.key {
        let merged = seq![Entry { key: s[0].key, amount: s[0].amount + e.amount }] + s.skip(1);
        assert forall|i: int| 0 <= i < s.len() implies (#[trigger] merged[i]).key == s[i].key
            && merged[i].amount >= s[i].amount by {
            if i > 0 {
                assert(merged[i] == s.skip(1)[i - 1]);
                assert(s.skip(1)[i - 1] == s[i]);
            }
        }
    } else {
        lemma_add_entry_mono(s.skip(1), e);
        let merged = seq![s[0]] + add_entry(s.skip(1), e);
        assert forall|i: int| 0 <= i < s.len() implies (#[trigger] merged[i]).key == s[i].key
            && merged[i].amount >= s[i].amount by {
            if i > 0 {
                assert(merged[i] == add_entry(s.skip(1), e)[i - 1]);
                assert(s.skip(1)[i - 1] == s[i]);
            }
        }
    }
}

proof fn lemma_add_entries_mono(s: Seq<Entry>, d: Seq<Entry>)
    requires
        entries_nonneg(d),
    ensures
        add_entries(s, d).len() >= s.len(),
        forall|i: int|
            0 <= i < s.len() ==> (#[trigger] add_entries(s, d)[i]).key == s[i].key && add_entries(
                s,
                d,
            )[i].amount >= s[i].amount,
    decreases d.len(),
{
    if d.len() == 0 {
    } else {
        lemma_add_entry_mono(s, d[0]);
        assert(entries_nonneg(d.skip(1))) by {
            assert forall|j: int| 0 <= j < d.skip(1).len() implies #[trigger] d.skip(
                1,
            )[j].amount >= 0 by {
                assert(d.skip(1)[j] == d[j + 1]);
            }
        }
        lemma_add_entries_mono(add_entry(s, d[0]), d.skip(1));
    }
}

proof fn lemma_add_entry_nonneg(s: Seq<Entry>, e: Entry)
    requires
        entries_nonneg(s),
        e.amount >= 0,
    ensures
        entries_nonneg(add_entry(s, e)),
    decreases s.len(),
{
    if s.len() == 0 {
    } else if s[0].key == e.key {
        let merged = seq![Entry { key: s[0].key, amount: s[0].amount + e.amount }] + s.skip(1);
        assert forall|i: int| 0 <= i < merged.len() implies #[trigger] merged[i].amount >= 0 by {
            if i > 0 {
                assert(merged[i] == s[i]);
            }
        }
    } else {
        assert(entries_nonneg(s.skip(1)));
        lemma_add_entry_nonneg(s.skip(1), e);
        let merged = seq![s[0]] + add_entry(s.skip(1), e);
        assert forall|i: int| 0 <= i < merged.len() implies #[trigger] merged[i].amount >= 0 by {
            if i > 0 {
                assert(merged[i] == add_entry(s.skip(1), e)[i - 1]);
            }
        }
    }
}

proof fn lemma_add_entries_nonneg(s: Seq<Entry>, d: Seq<Entry>)
    requires
        entries_nonneg(s),
        entries_nonneg(d),
    ensures
        entries_nonneg(add_entries(s, d)),
    decreases d.len(),
{
    if d.len() == 0 {
    } else {
        lemma_add_entry_nonneg(s, d[0]);
        assert(entries_nonneg(d.skip(1))) by {
            assert forall|j: int| 0 <= j < d.skip(1).len() implies #[trigger] d.skip(
                1,
            )[j].amount >= 0 by {
                assert(d.skip(1)[j] == d[j + 1]);
            }
        }
        lemma_add_entries_nonneg(add_entry(s, d[0]), d.skip(1));
    }
}

/// If the end state of a merge is representable, so is the state after any
/// prefix of the delta: amounts only grow along the way.
proof fn lemma_add_entries_prefix_bounded(s: Seq<Entry>, d: Seq<Entry>, n: int)
    requires
        entries_nonneg(s),
        entries_nonneg(d),
        entries_bounded(add_entries(s, d)),
        0 <= n <= d.len(),
    ensures
        entries_bounded(add_entries(s, d.take(n))),
{
    let inter = add_entries(s, d.take(n));
    assert(d =~= d.take(n) + d.skip(n));
    lemma_add_entries_concat(s, d.take(n), d.skip(n));
    assert(entries_nonneg(d.take(n))) by {
        assert forall|j: int| 0 <= j < d.take(n).len() implies #[trigger] d.take(
            n,
        )[j].amount >= 0 by {
            assert(d.take(n)[j] == d[j]);
        }
    }
    assert(entries_nonneg(d.skip(n))) by {
        assert forall|j: int| 0 <= j < d.skip(n).len() implies #[trigger] d.skip(
            n,
        )[j].amount >= 0 by {
            assert(d.skip(n)[j] == d[j + n]);
        }
    }
    lemma_add_entries_nonneg(s, d.take(n));
    lemma_add_entries_mono(inter, d.skip(n));
    assert forall|i: int| 0 <= i < inter.len() implies 0 <= #[trigger] inter[i].amount
        <= u128::MAX by {
        assert(add_entries(inter, d.skip(n))[i].amount >= inter[i].amount);
    }
}

proof fn lemma_sub_entry_anti(s: Seq<Entry>, e: Entry)
    requires
        e.amount >= 0,
    ensures
        sub_entry(s, e).len() >= s.len(),
        forall|i: int|
            0 <= i < s.len() ==> (#[trigger] sub_entry(s, e)[i]).key == s[i].key && sub_entry(
                s,
                e,
            )[i].amount <= s[i].amount,
    decreases s.len(),
{
    if s.len() == 0 {
    } else if s[0].key == e.key {
        let merged = seq![Entry { key: s[0].key, amount: s[0].amount - e.amount }] + s.skip(1);
        assert forall|i: int| 0 <= i < s.len() implies (#[trigger] merged[i]).key == s[i].key
            && merged[i].amount <= s[i].amount by {
            if i > 0 {
                assert(merged[i] == s.skip(1)[i - 1]);
                assert(s.skip(1)[i - 1] == s[i]);
            }
        }
    } else {
        lemma_sub_entry_anti(s.skip(1), e);
        let merged = seq![s[0]] + sub_entry(s.skip(1), e);
        assert forall|i: int| 0 <= i < s.len() implies (#[trigger] merged[i]).key == s[i].key
            && merged[i].amount <= s[i].amount by {
            if i > 0 {
                assert(merged[i] == sub_entry(s.skip(1), e)[i - 1]);
                assert(s.skip(1)[i - 1] == s[i]);
            }
        }
    }
}

proof fn lemma_sub_entries_anti(s: Seq<Entry>, d: Seq<Entry>)
    requires
        entries_nonneg(d),
    ensures
        sub_entries(s, d).len() >= s.len(),
        forall|i: int|
            0 <= i < s.len() ==> (#[trigger] sub_entries(s, d)[i]).key == s[i].key && sub_entries(
                s,
                d,
            )[i].amount <= s[i].amount,
    decreases d.len(),
{
    if d.len() == 0 {
    } else {
        lemma_sub_entry_anti(s, d[0]);
        assert(entries_nonneg(d.skip(1))) by {
            assert forall|j: int| 0 <= j < d.skip(1).len() implies #[trigger] d.skip(
                1,
            )[j].amount >= 0 by {
                assert(d.skip(1)[j] == d[j + 1]);
            }
        }
        lemma_sub_entries_anti(sub_entry(s, d[0]), d.skip(1));
    }
}

proof fn lemma_sub_entry_upper(s: Seq<Entry>, e: Entry)
    requires
        entries_upper(s),
        0 <= e.amount <= u128::MAX,
    ensures
        entries_upper(sub_entry(s, e)),
    decreases s.len(),
{
    if s.len() == 0 {
    } else if s[0].key == e.key {
        let merged = seq![Entry { key: s[0].key, amount: s[0].amount - e.amount }] + s.skip(1);
        assert forall|i: int| 0 <= i < merged.len() implies #[trigger] merged[i].amount
            <= u128::MAX by {
            if i > 0 {
                assert(merged[i] == s[i]);
            }
        }
    } else {
        assert(entries_upper(s.skip(1)));
        lemma_sub_entry_upper(s.skip(1), e);
        let merged = seq![s[0]] + sub_entry(s.skip(1), e);
        assert forall|i: int| 0 <= i < merged.len() implies #[trigger] merged[i].amount
            <= u128::MAX by {
            if i > 0 {
                assert(merged[i] == sub_entry(s.skip(1), e)[i - 1]);
            }
        }
    }
}

proof fn lemma_sub_entries_upper(s: Seq<Entry>, d: Seq<Entry>)
    requires
        entries_upper(s),
        entries_bounded(d),
    ensures
        entries_upper(sub_entries(s, d)),
    decreases d.len(),
{
    if d.len() == 0 {
    } else {
        lemma_sub_entry_upper(s, d[0]);
        assert(entries_bounded(d.skip(1))) by {
            assert forall|j: int| 0 <= j < d.skip(1).len() implies 0 <= #[trigger] d.skip(
                1,
            )[j].amount <= u128::MAX by {
                assert(d.skip(1)[j] == d[j + 1]);
            }
        }
        lemma_sub_entries_upper(sub_entry(s, d[0]), d.skip(1));
    }
}

/// If the end state of a subtraction is representable, so is the state after
/// any prefix of the delta: amounts only shrink towards the end state and
/// never rise above where they started.
proof fn lemma_sub_entries_prefix_bounded(s: Seq<Entry>, d: Seq<Entry>, n: int)
    requires
        entries_bounded(s),
        entries_bounded(d),
        entries_bounded(sub_entries(s, d)),
        0 <= n <= d.len(),
    ensures
        entries_bounded(sub_entries(s, d.take(n))),
{
    let inter = sub_entries(s, d.take(n));
    assert(d =~= d.take(n) + d.skip(n));
    lemma_sub_entries_concat(s, d.take(n), d.skip(n));
    assert(entries_bounded(d.take(n))) by {
        assert forall|j: int| 0 <= j < d.take(n).len() implies 0 <= #[trigger] d.take(
            n,
        )[j].amount <= u128::MAX by {
            assert(d.take(n)[j] == d[j]);
        }
    }
    assert(entries_nonneg(d.skip(n))) by {
        assert forall|j: int| 0 <= j < d.skip(n).len() implies #[trigger] d.skip(
            n,
        )[j].amount >= 0 by {
            assert(d.skip(n)[j] == d[j + n]);
        }
    }
    lemma_sub_entries_upper(s, d.take(n));
    lemma_sub_entries_anti(inter, d.skip(n));
    assert forall|i: int| 0 <= i < inter.len() implies 0 <= #[trigger] inter[i].amount
        <= u128::MAX by {
        assert(sub_entries(inter, d.skip(n))[i].amount <= inter[i].amount);
    }
}

// ---------------------------------------------------------------------------
// Executable merge and subtract
// ---------------------------------------------------------------------------

fn add_native(v: &mut Vec<Coin>, c: Coin)
    requires
        entries_bounded(add_entry(old(v)@.map_values(|x: Coin| x@), c@)),
    ensures
        final(v)@.map_values(|x: Coin| x@) == add_entry(old(v)@.map_values(|x: Coin| x@), c@),
{
    let ghost s = v@.map_values(|x: Coin| x@);
    let mut i: usize = 0;
    while i < v.len()
        invariant
            i <= v.len(),
            v@.map_values(|x: Coin| x@) == s,
            s == old(v)@.map_values(|x: Coin| x@),
            entries_bounded(add_entry(s, c@)),
            forall|j: int| 0 <= j < i ==> s[j].key != c@.key,
        decreases v.len() - i,
    {
        if v[i].denom == c.denom {
            proof {
                lemma_add_entry_found(s, c@, i as int);
                assert(add_entry(s, c@)[i as int].amount == s[i as int].amount + c@.amount);
            }
            let denom = v[i].denom.clone();
            let amount = v[i].amount + c.amount;
            v[i] = Coin { denom, amount };
            proof {
                assert(v@.map_values(|x: Coin| x@) =~= add_entry(s, c@));
            }
            return ;
        }
        i += 1;
    }
    proof {
        lemma_add_entry_missing(s, c@);
    }
    v.push(c);
    proof {
        assert(v@.map_values(|x: Coin| x@) =~= s.push(c@));
    }
}

fn add_cw20(v: &mut Vec<Cw20Coin>, c: Cw20Coin)
    requires
        entries_bounded(add_entry(old(v)@.map_values(|x: Cw20Coin| x@), c@)),
    ensures
        final(v)@.map_values(|x: Cw20Coin| x@) == add_entry(
            old(v)@.map_values(|x: Cw20Coin| x@),
            c@,
        ),
{
    let ghost s = v@.map_values(|x: Cw20Coin| x@);
    let mut i: usize = 0;
    while i < v.len()
        invariant
            i <= v.len(),
            v@.map_values(|x: Cw20Coin| x@) == s,
            s == old(v)@.map_values(|x: Cw20Coin| x@),
            entries_bounded(add_entry(s, c@)),
            forall|j: int| 0 <= j < i ==> s[j].key != c@.key,
        decreases v.len() - i,
    {
        if v[i].address == c.address {
            proof {
                lemma_add_entry_found(s, c@, i as int);
                assert(add_entry(s, c@)[i as int].amount == s[i as int].amount + c@.amount);
            }
            let address = v[i].address.clone();
            let amount = v[i].amount + c.amount;
            v[i] = Cw20Coin { address, amount };
            proof {
                assert(v@.map_values(|x: Cw20Coin| x@) =~= add_entry(s, c@));
            }
            return ;
        }
        i += 1;
    }
    proof {
        lemma_add_entry_missing(s, c@);
    }
    v.push(c);
    proof {
        assert(v@.map_values(|x: Cw20Coin| x@) =~= s.push(c@));
    }
}

fn sub_native(v: &mut Vec<Coin>, c: Coin)
    requires
        entries_bounded(sub_entry(old(v)@.map_values(|x: Coin| x@), c@)),
    ensures
        final(v)@.map_values(|x: Coin| x@) == sub_entry(old(v)@.map_values(|x: Coin| x@), c@),
{
    let ghost s = v@.map_values(|x: Coin| x@);
    let mut i: usize = 0;
    while i < v.len()
        invariant
            i <= v.len(),
            v@.map_values(|x: Coin| x@) == s,
            s == old(v)@.map_values(|x: Coin| x@),
            entries_bounded(sub_entry(s, c@)),
            forall|j: int| 0 <= j < i ==> s[j].key != c@.key,
        decreases v.len() - i,
    {
        if v[i].denom == c.denom {
            proof {
                lemma_sub_entry_found(s, c@, i as int);
                assert(sub_entry(s, c@)[i as int].amount == s[i as int].amount - c@.amount);
            }
            let denom = v[i].denom.clone();
            let amount = v[i].amount - c.amount;
            v[i] = Coin { denom, amount };
            proof {
                assert(v@.map_values(|x: Coin| x@) =~= sub_entry(s, c@));
            }
            return ;
        }
        i += 1;
    }
    proof {
        lemma_sub_entry_missing(s, c@);
    }
    v.push(c);
    proof {
        assert(v@.map_values(|x: Coin| x@) =~= s.push(c@));
    }
}

fn sub_cw20(v: &mut Vec<Cw20Coin>, c: Cw20Coin)
    requires
        entries_bounded(sub_entry(old(v)@.map_values(|x: Cw20Coin| x@), c@)),
    ensures
        final(v)@.map_values(|x: Cw20Coin| x@) == sub_entry(
            old(v)@.map_values(|x: Cw20Coin| x@),
            c@,
        ),
{
    let ghost s = v@.map_values(|x: Cw20Coin| x@);
    let mut i: usize = 0;
    while i < v.len()
        invariant
            i <= v.len(),
            v@.map_values(|x: Cw20Coin| x@) == s,
            s == old(v)@.map_values(|x: Cw20Coin| x@),
            entries_bounded(sub_entry(s, c@)),
            forall|j: int| 0 <= j < i ==> s[j].key != c@.key,
        decreases v.len() - i,
    {
        if v[i].address == c.address {
            proof {
                lemma_sub_entry_found(s, c@, i as int);
                assert(sub_entry(s, c@)[i as int].amount == s[i as int].amount - c@.amount);
            }
            let address = v[i].address.clone();
            let amount = v[i].amount - c.amount;
            v[i] = Cw20Coin { address, amount };
            proof {
                assert(v@.map_values(|x: Cw20Coin| x@) =~= sub_entry(s, c@));
            }
            return ;
        }
        i += 1;
    }
    proof {
        lemma_sub_entry_missing(s, c@);
    }
    v.push(c);
    proof {
        assert(v@.map_values(|x: Cw20Coin| x@) =~= s.push(c@));
    }
}

impl Default for GenericBalance {
    /// The empty ledger.
    fn default() -> (r: GenericBalance)
        ensures
            r@.native == Seq::<Entry>::empty(),
            r@.cw20 == Seq::<Entry>::empty(),
    {
        GenericBalance::new()
    }
}

impl GenericBalance {
    pub fn new() -> (r: GenericBalance)
        ensures
            r@.native == Seq::<Entry>::empty(),
            r@.cw20 == Seq::<Entry>::empty(),
    {
        let r = GenericBalance { native: Vec::new(), cw20: Vec::new() };
        proof {
            assert(r@.native =~= Seq::<Entry>::empty());
            assert(r@.cw20 =~= Seq::<Entry>::empty());
        }
        r
    }

    /// Merge a funds delta into the ledger: a matching key is incremented,
    /// a new key is appended. Nothing is ever pruned.
    pub fn add_tokens(&mut self, add: Balance)
        requires
            entries_bounded(add_entries(old(self)@.native, native_delta(add))),
            entries_bounded(add_entries(old(self)@.cw20, cw20_delta(add))),
        ensures
            final(self)@.native == add_entries(old(self)@.native, native_delta(add)),
            final(self)@.cw20 == add_entries(old(self)@.cw20, cw20_delta(add)),
    {
        let ghost orig_native = self@.native;
        let ghost orig_cw20 = self@.cw20;
        let ghost dn = native_delta(add);
        let ghost dc = cw20_delta(add);
        match add {
            Balance::Native(coins) => {
                let ghost full = coins@.map_values(|c: Coin| c@);
                proof {
                    assert(full == dn);
                    assert(dc =~= Seq::<Entry>::empty());
                    assert(full.take(0) =~= Seq::<Entry>::empty());
                    assert(entries_nonneg(orig_native)) by {
                        assert forall|j: int| 0 <= j < orig_native.len()
                            implies #[trigger] orig_native[j].amount >= 0 by {
                            assert(orig_native[j] == self.native@[j]@);
                        }
                    }
                    assert(entries_nonneg(full)) by {
                        assert forall|j: int| 0 <= j < full.len()
                            implies #[trigger] full[j].amount >= 0 by {
                            assert(full[j] == coins@[j]@);
                        }
                    }
                }
                let mut k: usize = 0;
                let n = coins.len();
                while k < n
                    invariant
                        k <= n,
                        n == coins.len(),
                        full == coins@.map_values(|c: Coin| c@),
                        orig_native == old(self)@.native,
                        orig_cw20 == old(self)@.cw20,
                        self@.native == add_entries(orig_native, full.take(k as int)),
                        self@.cw20 == orig_cw20,
                        entries_bounded(add_entries(orig_native, full)),
                        entries_nonneg(orig_native),
                        entries_nonneg(full),
                    decreases n - k,
                {
                    let c = Coin { denom: coins[k].denom.clone(), amount: coins[k].amount };
                    proof {
                        assert(c@ == full[k as int]);
                        assert(full.take(k as int + 1) =~= full.take(k as int).push(
                            full[k as int],
                        ));
                        lemma_add_entries_snoc(orig_native, full.take(k as int), full[k as int]);
                        lemma_add_entries_prefix_bounded(orig_native, full, k as int + 1);
                    }
                    add_native(&mut self.native, c);
                    k += 1;
                }
                proof {
                    assert(full.take(n as int) =~= full);
                }
            },
            Balance::Cw20(token) => {
                proof {
                    assert(dc == seq![token@]);
                    assert(dn =~= Seq::<Entry>::empty());
                    assert(seq![token@][0] == token@);
                    assert(seq![token@].skip(1) =~= Seq::<Entry>::empty());
                    assert(add_entries(orig_cw20, dc) == add_entries(
                        add_entry(orig_cw20, token@),
                        dc.skip(1),
                    ));
                    assert(add_entries(add_entry(orig_cw20, token@), Seq::<Entry>::empty())
                        == add_entry(orig_cw20, token@));
                }
                add_cw20(&mut self.cw20, token);
            },
        }
    }

    /// Subtract a funds delta from the ledger: a matching key is
    /// decremented; a missing key is appended as if it were new money — the
    /// legacy behaviour, kept deliberately.
    pub fn sub_tokens(&mut self, sub: Balance)
        requires
            entries_bounded(sub_entries(old(self)@.native, native_delta(sub))),
            entries_bounded(sub_entries(old(self)@.cw20, cw20_delta(sub))),
        ensures
            final(self)@.native == sub_entries(old(self)@.native, native_delta(sub)),
            final(self)@.cw20 == sub_entries(old(self)@.cw20, cw20_delta(sub)),
    {
        let ghost orig_native = self@.native;
        let ghost orig_cw20 = self@.cw20;
        let ghost dn = native_delta(sub);
        let ghost dc = cw20_delta(sub);
        match sub {
            Balance::Native(coins) => {
                let ghost full = coins@.map_values(|c: Coin| c@);
                proof {
                    assert(full == dn);
                    assert(dc =~= Seq::<Entry>::empty());
                    assert(full.take(0) =~= Seq::<Entry>::empty());
                    assert(entries_bounded(orig_native)) by {
                        assert forall|j: int| 0 <= j < orig_native.len() implies 0
                            <= #[trigger] orig_native[j].amount <= u128::MAX by {
                            assert(orig_native[j] == self.native@[j]@);
                        }
                    }
                    assert(entries_bounded(full)) by {
                        assert forall|j: int| 0 <= j < full.len() implies 0
                            <= #[trigger] full[j].amount <= u128::MAX by {
                            assert(full[j] == coins@[j]@);
                        }
                    }
                }
                let mut k: usize = 0;
                let n = coins.len();
                while k < n
                    invariant
                        k <= n,
                        n == coins.len(),
                        full == coins@.map_values(|c: Coin| c@),
                        orig_native == old(self)@.native,
                        orig_cw20 == old(self)@.cw20,
                        self@.native == sub_entries(orig_native, full.take(k as int)),
                        self@.cw20 == orig_cw20,
                        entries_bounded(sub_entries(orig_native, full)),
                        entries_bounded(orig_native),
                        entries_bounded(full),
                    decreases n - k,
                {
                    let c = Coin { denom: coins[k].denom.clone(), amount: coins[k].amount };
                    proof {
                        assert(c@ == full[k as int]);
                        assert(full.take(k as int + 1) =~= full.take(k as int).push(
                            full[k as int],
                        ));
                        lemma_sub_entries_snoc(orig_native, full.take(k as int), full[k as int]);
                        lemma_sub_entries_prefix_bounded(orig_native, full, k as int + 1);
                    }
                    sub_native(&mut self.native, c);
                    k += 1;
                }
                proof {
                    assert(full.take(n as int) =~= full);
                }
            },
            Balance::Cw20(token) => {
                proof {
                    assert(dc == seq![token@]);
                    assert(dn =~= Seq::<Entry>::empty());
                    assert(seq![token@][0] == token@);
                    assert(seq![token@].skip(1) =~= Seq::<Entry>::empty());
                    assert(sub_entries(orig_cw20, dc) == sub_entries(
                        sub_entry(orig_cw20, token@),
                        dc.skip(1),
                    ));
                    assert(sub_entries(sub_entry(orig_cw20, token@), Seq::<Entry>::empty())
                        == sub_entry(orig_cw20, token@));
                }
                sub_cw20(&mut self.cw20, token);
            },
        }
    }
}

impl Clone for GenericBalance {
    fn clone(&self) -> (res: Self)
        ensures
            res@ == self@,
    {
        let mut native: Vec<Coin> = Vec::new();
        let mut i: usize = 0;
        proof {
            assert(native@.map_values(|c: Coin| c@) =~= self@.native.take(0));
        }
        while i < self.native.len()
            invariant
                i <= self.native.len(),
                native@.len() == i,
                native@.map_values(|c: Coin| c@) == self@.native.take(i as int),
            decreases self.native.len() - i,
        {
            native.push(self.native[i].clone());
            proof {
                assert(native@.map_values(|c: Coin| c@) =~= self@.native.take(i as int + 1));
            }
            i += 1;
        }
        let mut cw20: Vec<Cw20Coin> = Vec::new();
        let mut j: usize = 0;
        proof {
            assert(cw20@.map_values(|c: Cw20Coin| c@) =~= self@.cw20.take(0));
        }
        while j < self.cw20.len()
            invariant
                j <= self.cw20.len(),
                cw20@.len() == j,
                cw20@.map_values(|c: Cw20Coin| c@) == self@.cw20.take(j as int),
            decreases self.cw20.len() - j,
        {
            cw20.push(self.cw20[j].clone());
            proof {
                assert(cw20@.map_values(|c: Cw20Coin| c@) =~= self@.cw20.take(j as int + 1));
            }
            j += 1;
        }
        let res = GenericBalance { native, cw20 };
        proof {
            assert(self@.native.take(self.native.len() as int) =~= self@.native);
            assert(self@.cw20.take(self.cw20.len() as int) =~= self@.cw20);
        }
        res
    }
}


} // verus!
