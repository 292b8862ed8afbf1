//! The trade ledger: the share balances of each account, outcome by outcome.
//!
//! An account has no row until its first credit. The first credit gives it a
//! row with a zero balance for every outcome and then adds the shares, so an
//! account that has traded is told apart from one that never has.

use crate::error::MarketError;
use vstd::prelude::*;

verus! {

/// The row of an account with no shares of any of `n` outcomes.
pub open spec fn zero_row(n: nat) -> Seq<u128> {
    Seq::new(n, |o: int| 0u128)
}

/// The row of `account`, or the zero row if it has none.
pub open spec fn row_or_zero(rows: Map<Seq<char>, Seq<u128>>, account: Seq<char>, n: nat) -> Seq<
    u128,
> {
    if rows.contains_key(account) {
        rows[account]
    } else {
        zero_row(n)
    }
}

/// Every row has a balance for each of the `n` outcomes.
pub open spec fn rows_complete(rows: Map<Seq<char>, Seq<u128>>, n: nat) -> bool {
    forall|account: Seq<char>| (#[trigger] rows.contains_key(account)) ==> rows[account].len() == n
}

/// The balance of `account` for `outcome`: `None` where the account has no
/// row or the market no such outcome.
pub open spec fn balance(rows: Map<Seq<char>, Seq<u128>>, account: Seq<char>, n: nat, outcome: int)
    -> Option<u128> {
    if rows.contains_key(account) && 0 <= outcome < n {
        Some(rows[account][outcome])
    } else {
        None
    }
}

/// Adding `k` shares of `outcome` to the row of `account` exceeds the integer range.
pub open spec fn credit_overflows(
    rows: Map<Seq<char>, Seq<u128>>,
    account: Seq<char>,
    n: nat,
    outcome: int,
    k: int,
) -> bool {
    row_or_zero(rows, account, n)[outcome] + k > u128::MAX
}

/// The rows after `k` shares of `outcome` were added to the row of `account`.
pub open spec fn credited(
    rows: Map<Seq<char>, Seq<u128>>,
    account: Seq<char>,
    n: nat,
    outcome: int,
    k: int,
) -> Map<Seq<char>, Seq<u128>> {
    let row = row_or_zero(rows, account, n);
    rows.insert(account, row.update(outcome, (row[outcome] + k) as u128))
}

/// The account has a row with at least `k` shares of `outcome`.
pub open spec fn can_debit(
    rows: Map<Seq<char>, Seq<u128>>,
    account: Seq<char>,
    n: nat,
    outcome: int,
    k: int,
) -> bool {
    rows.contains_key(account) && 0 <= outcome < n && rows[account][outcome] >= k
}

/// The rows after `k` shares of `outcome` were taken from the row of `account`.
pub open spec fn debited(
    rows: Map<Seq<char>, Seq<u128>>,
    account: Seq<char>,
    outcome: int,
    k: int,
) -> Map<Seq<char>, Seq<u128>> {
    rows.insert(account, rows[account].update(outcome, (rows[account][outcome] - k) as u128))
}

/// The positions can be the rows of a ledger with `n` outcomes: each has a
/// balance for every outcome, and no two are of the same account.
pub open spec fn positions_ok(positions: Seq<Position>, n: nat) -> bool {
    &&& forall|j: int|
        0 <= j < positions.len() ==> (#[trigger] positions[j]).balances.len() == n
    &&& forall|j: int, l: int|
        0 <= j < l < positions.len() ==> (#[trigger] positions[j]).account@ != (
        #[trigger] positions[l]).account@
}

/// The rows are those that the positions list: every position is the row of
/// its account, and every row is one of the positions.
pub open spec fn lists(positions: Seq<Position>, rows: Map<Seq<char>, Seq<u128>>) -> bool {
    &&& forall|j: int|
        0 <= j < positions.len() ==> rows.contains_key((#[trigger] positions[j]).account@)
            && rows[positions[j].account@] == positions[j].balances@
    &&& forall|account: Seq<char>| #[trigger]
        rows.contains_key(account) ==> exists|j: int|
            0 <= j < positions.len() && (#[trigger] positions[j]).account@ == account
}

/// Positions list the rows of one ledger only.
pub proof fn lemma_lists_one(
    positions: Seq<Position>,
    first: Map<Seq<char>, Seq<u128>>,
    second: Map<Seq<char>, Seq<u128>>,
)
    requires
        lists(positions, first),
        lists(positions, second),
    ensures
        first == second,
{
    assert forall|a: Seq<char>|
        #![trigger first.contains_key(a)]
        #![trigger second.contains_key(a)]
        first.contains_key(a) == second.contains_key(a) && (first.contains_key(a) ==> first[a]
            == second[a]) by {
        if first.contains_key(a) {
            let j = choose|j: int| 0 <= j < positions.len() && (#[trigger] positions[j]).account@ == a;
            assert(second.contains_key(positions[j].account@));
        }
        if second.contains_key(a) {
            let j = choose|j: int| 0 <= j < positions.len() && (#[trigger] positions[j]).account@ == a;
            assert(first.contains_key(positions[j].account@));
        }
    }
    assert(first =~= second);
}

/// Crediting keeps every row complete.
pub proof fn lemma_credited_complete(
    rows: Map<Seq<char>, Seq<u128>>,
    account: Seq<char>,
    n: nat,
    outcome: int,
    k: int,
)
    requires
        rows_complete(rows, n),
        0 <= outcome < n,
    ensures
        rows_complete(credited(rows, account, n, outcome, k), n),
{
    let after = credited(rows, account, n, outcome, k);
    assert forall|a: Seq<char>| #[trigger] after.contains_key(a) implies after[a].len() == n by {
        if a != account {
            assert(rows.contains_key(a));
        }
    }
}

/// Debiting keeps every row complete.
pub proof fn lemma_debited_complete(
    rows: Map<Seq<char>, Seq<u128>>,
    account: Seq<char>,
    n: nat,
    outcome: int,
    k: int,
)
    requires
        rows_complete(rows, n),
        can_debit(rows, account, n, outcome, k),
    ensures
        rows_complete(debited(rows, account, outcome, k), n),
{
    let after = debited(rows, account, outcome, k);
    assert forall|a: Seq<char>| #[trigger] after.contains_key(a) implies after[a].len() == n by {
        if a != account {
            assert(rows.contains_key(a));
        }
    }
}

/// A credit followed by a look at the balance gives the old balance and the
/// credit for the credited outcome, and the old balance, or an explicit zero,
/// for every other outcome.
pub proof fn lemma_credit_then_balance(
    rows: Map<Seq<char>, Seq<u128>>,
    account: Seq<char>,
    n: nat,
    outcome: int,
    k: int,
    other: int,
)
    requires
        rows_complete(rows, n),
        0 <= outcome < n,
        0 <= other < n,
        0 <= k,
        !credit_overflows(rows, account, n, outcome, k),
    ensures
        balance(credited(rows, account, n, outcome, k), account, n, other) == Some(
            if other == outcome {
                (row_or_zero(rows, account, n)[outcome] + k) as u128
            } else {
                row_or_zero(rows, account, n)[other]
            },
        ),
{
}

/// The share balances of one account: a row of the ledger.
#[derive(Clone, Debug)]
pub struct Position {
    pub account: String,
    /// The balance for each outcome, in the order of the outcomes.
    pub balances: Vec<u128>,
}

/// The share balances of all accounts that have traded in one market.
#[derive(Clone, Debug)]
pub struct Ledger {
    rows: Vec<Position>,
    outcomes: usize,
}

impl View for Ledger {
    type V = Map<Seq<char>, Seq<u128>>;

    /// The rows of the ledger, by account.
    closed spec fn view(&self) -> Map<Seq<char>, Seq<u128>> {
        Map::new(
            |account: Seq<char>| self.has_row(account),
            |account: Seq<char>| self.rows[self.row_of(account)].balances@,
        )
    }
}

impl Ledger {
    /// The number of outcomes for which each row holds a balance.
    pub closed spec fn outcomes(&self) -> nat {
        self.outcomes as nat
    }

    spec fn has_row(&self, account: Seq<char>) -> bool {
        exists|j: int| 0 <= j < self.rows.len() && self.rows[j].account@ == account
    }

    spec fn row_of(&self, account: Seq<char>) -> int {
        choose|j: int| 0 <= j < self.rows.len() && self.rows[j].account@ == account
    }

    /// Every row is complete and no account has two rows.
    pub closed spec fn wf(&self) -> bool {
        &&& forall|j: int|
            0 <= j < self.rows.len() ==> (#[trigger] self.rows[j]).balances.len() == self.outcomes
        &&& forall|j: int, l: int|
            0 <= j < l < self.rows.len() ==> (#[trigger] self.rows[j]).account@ != (
            #[trigger] self.rows[l]).account@
    }

    /// The rows of a well-formed ledger are complete.
    pub proof fn lemma_rows_complete(&self)
        requires
            self.wf(),
        ensures
            rows_complete(self@, self.outcomes()),
    {
        assert forall|account: Seq<char>| #[trigger] self@.contains_key(account) implies self@[account].len()
            == self.outcomes() by {
            let j = self.row_of(account);
            assert(self.rows[j].balances.len() == self.outcomes);
        }
    }

    proof fn lemma_row_at(&self, j: int)
        requires
            self.wf(),
            0 <= j < self.rows.len(),
        ensures
            self@.contains_key(self.rows[j].account@),
            self@[self.rows[j].account@] == self.rows[j].balances@,
            self.row_of(self.rows[j].account@) == j,
    {
        let account = self.rows[j].account@;
        assert(self.has_row(account));
        let l = self.row_of(account);
        if l < j {
            assert(self.rows[l].account@ != self.rows[j].account@);
        }
        if j < l {
            assert(self.rows[j].account@ != self.rows[l].account@);
        }
    }

    /// Makes the ledger of a market with the given number of outcomes. It has no rows.
    pub fn new(outcomes: usize) -> (ledger: Ledger)
        ensures
            ledger.wf(),
            ledger.outcomes() == outcomes,
            ledger@ == Map::<Seq<char>, Seq<u128>>::empty(),
    {
        let ledger = Ledger { rows: Vec::new(), outcomes };
        assert(ledger@ =~= Map::<Seq<char>, Seq<u128>>::empty());
        ledger
    }

    /// The rows of a well-formed ledger are positions that list its rows.
    proof fn lemma_rows_list(&self)
        requires
            self.wf(),
        ensures
            positions_ok(self.rows@, self.outcomes as nat),
            lists(self.rows@, self@),
    {
        assert forall|j: int| 0 <= j < self.rows.len() implies self@.contains_key(
            (#[trigger] self.rows@[j]).account@,
        ) && self@[self.rows@[j].account@] == self.rows@[j].balances@ by {
            self.lemma_row_at(j);
        }
        assert forall|account: Seq<char>| #[trigger] self@.contains_key(account) implies exists|
            j: int,
        |
            0 <= j < self.rows@.len() && (#[trigger] self.rows@[j]).account@ == account by {
            let j = self.row_of(account);
            assert(self.rows@[j].account@ == account);
        }
    }

    /// Makes a ledger of the given positions, if they can be the rows of one.
    pub fn from_positions(outcomes: usize, positions: Vec<Position>) -> (made: Option<Ledger>)
        ensures
            match made {
                Some(ledger) => positions_ok(positions@, outcomes as nat) && ledger.wf()
                    && ledger.outcomes() == outcomes && lists(positions@, ledger@),
                None => !positions_ok(positions@, outcomes as nat),
            },
    {
        let mut j: usize = 0;
        while j < positions.len()
            invariant
                j <= positions.len(),
                positions_ok(positions@.take(j as int), outcomes as nat),
            decreases positions.len() - j,
        {
            if positions[j].balances.len() != outcomes {
                return None;
            }
            let mut l: usize = 0;
            while l < j
                invariant
                    l <= j < positions.len(),
                    forall|m: int|
                        0 <= m < l ==> (#[trigger] positions[m]).account@ != positions[j as int].account@,
                decreases j - l,
            {
                if positions[l].account == positions[j].account {
                    return None;
                }
                l = l + 1;
            }
            proof {
                let before = positions@.take(j as int);
                let after = positions@.take(j + 1);
                assert forall|m: int| 0 <= m < after.len() implies (#[trigger] after[m]).balances.len()
                    == outcomes by {
                    if m < j {
                        assert(before[m].balances.len() == outcomes);
                    }
                }
                assert forall|m: int, o: int| 0 <= m < o < after.len() implies (
                #[trigger] after[m]).account@ != (#[trigger] after[o]).account@ by {
                    if o < j {
                        assert(before[m].account@ != before[o].account@);
                    } else {
                        assert(positions[m].account@ != positions[j as int].account@);
                    }
                }
            }
            j = j + 1;
        }
        assert(positions@.take(j as int) =~= positions@);
        let ledger = Ledger { rows: positions, outcomes };
        proof {
            ledger.lemma_rows_list();
        }
        Some(ledger)
    }

    /// Returns the rows of the ledger as positions.
    pub fn positions(&self) -> (rows: Vec<Position>)
        requires
            self.wf(),
        ensures
            positions_ok(rows@, self.outcomes()),
            lists(rows@, self@),
    {
        let mut rows: Vec<Position> = Vec::new();
        let mut j: usize = 0;
        while j < self.rows.len()
            invariant
                j <= self.rows.len(),
                rows.len() == j,
                forall|l: int|
                    0 <= l < j ==> (#[trigger] rows[l]).account@ == self.rows[l].account@
                        && rows[l].balances@ == self.rows[l].balances@,
            decreases self.rows.len() - j,
        {
            let mut balances: Vec<u128> = Vec::new();
            let mut o: usize = 0;
            while o < self.rows[j].balances.len()
                invariant
                    j < self.rows.len(),
                    o <= self.rows[j as int].balances.len(),
                    balances@ == self.rows[j as int].balances@.take(o as int),
                decreases self.rows[j as int].balances.len() - o,
            {
                balances.push(self.rows[j].balances[o]);
                assert(self.rows[j as int].balances@.take(o + 1) =~= self.rows[j as int].balances@.take(
                    o as int,
                ).push(self.rows[j as int].balances@[o as int]));
                o = o + 1;
            }
            assert(balances@ =~= self.rows[j as int].balances@);
            rows.push(Position { account: self.rows[j].account.clone(), balances });
            j = j + 1;
        }
        proof {
            self.lemma_rows_list();
            assert forall|l: int| 0 <= l < rows.len() implies self@.contains_key(
                (#[trigger] rows@[l]).account@,
            ) && self@[rows@[l].account@] == rows@[l].balances@ by {
                assert(self.rows@[l].account@ == rows[l].account@);
            }
            assert forall|account: Seq<char>| #[trigger] self@.contains_key(account) implies exists|
                l: int,
            |
                0 <= l < rows@.len() && (#[trigger] rows@[l]).account@ == account by {
                let l = choose|l: int|
                    0 <= l < self.rows@.len() && (#[trigger] self.rows@[l]).account@ == account;
                assert(rows@[l].account@ == account);
            }
            assert forall|l: int| 0 <= l < rows@.len() implies (#[trigger] rows@[l]).balances.len()
                == self.outcomes() by {
                assert(self.rows@[l].balances.len() == self.outcomes);
            }
            assert forall|l: int, m: int| 0 <= l < m < rows@.len() implies (
            #[trigger] rows@[l]).account@ != (#[trigger] rows@[m]).account@ by {
                assert(self.rows@[l].account@ != self.rows@[m].account@);
            }
        }
        rows
    }

    /// Returns the number of outcomes for which each row holds a balance.
    pub fn outcomes_count(&self) -> (count: usize)
        ensures
            count == self.outcomes(),
    {
        self.outcomes
    }

    /// Whether the ledger satisfies its invariant.
    pub fn is_well_formed(&self) -> (ok: bool)
        ensures
            ok == self.wf(),
    {
        let mut j: usize = 0;
        while j < self.rows.len()
            invariant
                j <= self.rows.len(),
                positions_ok(self.rows@.take(j as int), self.outcomes as nat),
            decreases self.rows.len() - j,
        {
            if self.rows[j].balances.len() != self.outcomes {
                return false;
            }
            let mut l: usize = 0;
            while l < j
                invariant
                    l <= j < self.rows.len(),
                    forall|m: int|
                        0 <= m < l ==> (#[trigger] self.rows[m]).account@ != self.rows[j as int].account@,
                decreases j - l,
            {
                if self.rows[l].account == self.rows[j].account {
                    return false;
                }
                l = l + 1;
            }
            proof {
                let before = self.rows@.take(j as int);
                let after = self.rows@.take(j + 1);
                assert forall|m: int| 0 <= m < after.len() implies (#[trigger] after[m]).balances.len()
                    == self.outcomes by {
                    if m < j {
                        assert(before[m].balances.len() == self.outcomes);
                    }
                }
                assert forall|m: int, o: int| 0 <= m < o < after.len() implies (
                #[trigger] after[m]).account@ != (#[trigger] after[o]).account@ by {
                    if o < j {
                        assert(before[m].account@ != before[o].account@);
                    } else {
                        assert(self.rows[m].account@ != self.rows[j as int].account@);
                    }
                }
            }
            j = j + 1;
        }
        assert(self.rows@.take(j as int) =~= self.rows@);
        true
    }

    /// Finds the row of an account.
    fn find(&self, account: &String) -> (found: Option<usize>)
        requires
            self.wf(),
        ensures
            match found {
                Some(j) => j < self.rows.len() && self.rows[j as int].account@ == account@,
                None => !self@.contains_key(account@),
            },
    {
        let mut j: usize = 0;
        while j < self.rows.len()
            invariant
                j <= self.rows.len(),
                forall|l: int| 0 <= l < j ==> (#[trigger] self.rows[l]).account@ != account@,
            decreases self.rows.len() - j,
        {
            if self.rows[j].account == *account {
                return Some(j);
            }
            j = j + 1;
        }
        assert(!self.has_row(account@));
        None
    }

    /// Returns the balance of `account` for `outcome_id`, or `None` if the
    /// account never traded in this market.
    pub fn balance_of(&self, account: &String, outcome_id: u32) -> (shares: Option<u128>)
        requires
            self.wf(),
        ensures
            shares == balance(self@, account@, self.outcomes(), outcome_id as int),
    {
        match self.find(account) {
            Some(j) => {
                proof {
                    self.lemma_row_at(j as int);
                }
                if (outcome_id as usize) < self.outcomes {
                    Some(self.rows[j].balances[outcome_id as usize])
                } else {
                    None
                }
            },
            None => None,
        }
    }

    /// Returns a copy of the row of `account`, or `None` if the account never
    /// traded in this market.
    pub fn balances_of(&self, account: &String) -> (row: Option<Vec<u128>>)
        requires
            self.wf(),
        ensures
            match row {
                Some(balances) => self@.contains_key(account@) && balances@ == self@[account@],
                None => !self@.contains_key(account@),
            },
    {
        match self.find(account) {
            Some(j) => {
                proof {
                    self.lemma_row_at(j as int);
                }
                let mut copy: Vec<u128> = Vec::new();
                let mut o: usize = 0;
                while o < self.rows[j].balances.len()
                    invariant
                        j < self.rows.len(),
                        o <= self.rows[j as int].balances.len(),
                        copy@ == self.rows[j as int].balances@.take(o as int),
                    decreases self.rows[j as int].balances.len() - o,
                {
                    copy.push(self.rows[j].balances[o]);
                    assert(self.rows[j as int].balances@.take(o + 1) =~= self.rows[j as int].balances@.take(
                        o as int,
                    ).push(self.rows[j as int].balances@[o as int]));
                    o = o + 1;
                }
                assert(copy@ =~= self.rows[j as int].balances@);
                Some(copy)
            },
            None => None,
        }
    }

    /// Adds `k` shares of `outcome_id` to the balance of `account`, giving the
    /// account a row first if it has none.
    pub fn credit(&mut self, account: &String, outcome_id: u32, k: u128) -> (result: Result<
        (),
        MarketError,
    >)
        requires
            old(self).wf(),
            (outcome_id as int) < old(self).outcomes(),
        ensures
            final(self).wf(),
            final(self).outcomes() == old(self).outcomes(),
            credit_overflows(old(self)@, account@, old(self).outcomes(), outcome_id as int, k as int)
                ==> result == Err::<(), MarketError>(MarketError::ArithmeticOverflow) && final(self)@
                == old(self)@,
            !credit_overflows(old(self)@, account@, old(self).outcomes(), outcome_id as int, k as int)
                ==> result == Ok::<(), MarketError>(()) && final(self)@ == credited(
                old(self)@,
                account@,
                old(self).outcomes(),
                outcome_id as int,
                k as int,
            ),
    {
        let o: usize = outcome_id as usize;
        match self.find(account) {
            Some(j) => {
                proof {
                    self.lemma_row_at(j as int);
                }
                let held: u128 = self.rows[j].balances[o];
                if k > u128::MAX - held {
                    return Err(MarketError::ArithmeticOverflow);
                }
                self.rows[j].balances[o] = held + k;
                proof {
                    self.lemma_updated(*old(self), j as int, o as int, (held + k) as u128);
                }
                Ok(())
            },
            None => {
                let mut balances: Vec<u128> = Vec::new();
                let mut l: usize = 0;
                while l < self.outcomes
                    invariant
                        l <= self.outcomes,
                        balances@ == zero_row(l as nat),
                    decreases self.outcomes - l,
                {
                    balances.push(0);
                    assert(balances@ =~= zero_row((l + 1) as nat));
                    l = l + 1;
                }
                balances[o] = k;
                self.rows.push(Position { account: account.clone(), balances });
                proof {
                    let n = (self.rows.len() - 1) as int;
                    assert forall|j: int| 0 <= j < n implies (#[trigger] self.rows[j]).account@
                        != account@ by {
                        assert(self.rows[j] == old(self).rows[j]);
                        if self.rows[j].account@ == account@ {
                            assert(old(self).has_row(account@));
                        }
                    }
                    assert(self.wf());
                    let target = credited(
                        old(self)@,
                        account@,
                        old(self).outcomes(),
                        outcome_id as int,
                        k as int,
                    );
                    assert forall|a: Seq<char>|
                        #![trigger self@.contains_key(a)]
                        #![trigger target.contains_key(a)]
                        self@.contains_key(a) == target.contains_key(a) && (self@.contains_key(a)
                            ==> self@[a] == target[a]) by {
                        if a == account@ {
                            self.lemma_row_at(n);
                        } else if old(self).has_row(a) {
                            let j = old(self).row_of(a);
                            old(self).lemma_row_at(j);
                            assert(self.rows[j] == old(self).rows[j]);
                            self.lemma_row_at(j);
                        } else if self.has_row(a) {
                            let j = self.row_of(a);
                            assert(self.rows[j] == old(self).rows[j]);
                        }
                    }
                    assert(self@ =~= target);
                }
                Ok(())
            },
        }
    }

    /// Takes `k` shares of `outcome_id` from the balance of `account`.
    pub fn debit(&mut self, account: &String, outcome_id: u32, k: u128) -> (result: Result<
        (),
        MarketError,
    >)
        requires
            old(self).wf(),
        ensures
            final(self).wf(),
            final(self).outcomes() == old(self).outcomes(),
            !can_debit(old(self)@, account@, old(self).outcomes(), outcome_id as int, k as int)
                ==> result == Err::<(), MarketError>(MarketError::InsufficientShares) && final(self)@
                == old(self)@,
            can_debit(old(self)@, account@, old(self).outcomes(), outcome_id as int, k as int)
                ==> result == Ok::<(), MarketError>(()) && final(self)@ == debited(
                old(self)@,
                account@,
                outcome_id as int,
                k as int,
            ),
    {
        let o: usize = outcome_id as usize;
        match self.find(account) {
            Some(j) => {
                proof {
                    self.lemma_row_at(j as int);
                }
                if o >= self.outcomes {
                    return Err(MarketError::InsufficientShares);
                }
                let held: u128 = self.rows[j].balances[o];
                if held < k {
                    return Err(MarketError::InsufficientShares);
                }
                self.rows[j].balances[o] = held - k;
                proof {
                    self.lemma_updated(*old(self), j as int, o as int, (held - k) as u128);
                }
                Ok(())
            },
            None => Err(MarketError::InsufficientShares),
        }
    }

    /// A ledger that differs from a well-formed one in one balance of one row
    /// is well formed, and its rows differ in that balance alone.
    proof fn lemma_updated(&self, before: Ledger, j: int, o: int, value: u128)
        requires
            before.wf(),
            0 <= j < before.rows.len(),
            0 <= o < before.outcomes,
            self.outcomes == before.outcomes,
            self.rows.len() == before.rows.len(),
            forall|l: int| 0 <= l < self.rows.len() && l != j ==> self.rows[l] == before.rows[l],
            self.rows[j].account@ == before.rows[j].account@,
            self.rows[j].balances@ == before.rows[j].balances@.update(o, value),
        ensures
            self.wf(),
            self@ == before@.insert(
                before.rows[j].account@,
                before@[before.rows[j].account@].update(o, value),
            ),
    {
        let account = before.rows[j].account@;
        assert forall|l: int| 0 <= l < self.rows.len() implies (#[trigger] self.rows[l]).balances.len()
            == self.outcomes by {
            if l != j {
                assert(self.rows[l] == before.rows[l]);
            }
        }
        assert forall|l: int, m: int| 0 <= l < m < self.rows.len() implies (
        #[trigger] self.rows[l]).account@ != (#[trigger] self.rows[m]).account@ by {
            assert(self.rows[l].account@ == before.rows[l].account@);
            assert(self.rows[m].account@ == before.rows[m].account@);
        }
        before.lemma_row_at(j);
        let target = before@.insert(account, before@[account].update(o, value));
        assert forall|a: Seq<char>|
            #![trigger self@.contains_key(a)]
            #![trigger target.contains_key(a)]
            self@.contains_key(a) == target.contains_key(a) && (self@.contains_key(a) ==> self@[a]
                == target[a]) by {
            if before.has_row(a) {
                let l = before.row_of(a);
                before.lemma_row_at(l);
                assert(self.rows[l].account@ == a);
                self.lemma_row_at(l);
            } else if self.has_row(a) {
                let l = self.row_of(a);
                assert(before.rows[l].account@ == a);
            }
        }
        assert(self@ =~= target);
    }
}

} // verus!
