//! A ledger of account balances.

use vstd::hash_map::StringHashMap;
use vstd::prelude::*;

verus! {

/// Why a ledger operation was refused.
#[derive(Debug)]
pub enum AccountingError {
    AccountNotFound(String),
    AccountUnderFunded(String, u64),
    AccountOverFunded(String, u64),
}

/// A refusal as a mathematical value.
pub enum AccountingErrorView {
    AccountNotFound(Seq<char>),
    AccountUnderFunded(Seq<char>, u64),
    AccountOverFunded(Seq<char>, u64),
}

impl View for AccountingError {
    type V = AccountingErrorView;

    open spec fn view(&self) -> AccountingErrorView {
        match self {
            AccountingError::AccountNotFound(who) => AccountingErrorView::AccountNotFound(who@),
            AccountingError::AccountUnderFunded(who, amount) => AccountingErrorView::AccountUnderFunded(
                who@,
                *amount,
            ),
            AccountingError::AccountOverFunded(who, amount) => AccountingErrorView::AccountOverFunded(
                who@,
                *amount,
            ),
        }
    }
}

/// A change that was made to one account.
#[derive(Debug)]
pub enum Tx {
    Deposit { account: String, amount: u64 },
    Withdraw { account: String, amount: u64 },
}

/// A change as a mathematical value.
pub enum TxView {
    Deposit { account: Seq<char>, amount: u64 },
    Withdraw { account: Seq<char>, amount: u64 },
}

impl View for Tx {
    type V = TxView;

    open spec fn view(&self) -> TxView {
        match self {
            Tx::Deposit { account, amount } => TxView::Deposit { account: account@, amount: *amount },
            Tx::Withdraw { account, amount } => TxView::Withdraw {
                account: account@,
                amount: *amount,
            },
        }
    }
}

/// Balances by account name.
pub type Balances = Map<Seq<char>, u64>;

/// What a deposit does to the balances, and what it answers: a new account
/// starts at the amount, an existing one grows by it unless that overflows.
pub open spec fn deposit_result(balances: Balances, who: Seq<char>, amount: u64) -> (
    Balances,
    Result<TxView, AccountingErrorView>,
) {
    if !balances.contains_key(who) {
        (balances.insert(who, amount), Ok(TxView::Deposit { account: who, amount }))
    } else if balances[who] + amount > u64::MAX {
        (balances, Err(AccountingErrorView::AccountOverFunded(who, amount)))
    } else {
        (
            balances.insert(who, (balances[who] + amount) as u64),
            Ok(TxView::Deposit { account: who, amount }),
        )
    }
}

/// What a withdrawal does to the balances, and what it answers: the account
/// must exist and hold at least the amount.
pub open spec fn withdraw_result(balances: Balances, who: Seq<char>, amount: u64) -> (
    Balances,
    Result<TxView, AccountingErrorView>,
) {
    if !balances.contains_key(who) {
        (balances, Err(AccountingErrorView::AccountNotFound(who)))
    } else if balances[who] < amount {
        (balances, Err(AccountingErrorView::AccountUnderFunded(who, amount)))
    } else {
        (
            balances.insert(who, (balances[who] - amount) as u64),
            Ok(TxView::Withdraw { account: who, amount }),
        )
    }
}

/// What a transfer does that withdraws first and deposits second, and that
/// leaves the balances as they were when the deposit is refused.
pub open spec fn transfer_result(balances: Balances, from: Seq<char>, to: Seq<char>, amount: u64) -> (
    Balances,
    Result<(TxView, TxView), AccountingErrorView>,
) {
    match withdraw_result(balances, from, amount) {
        (_, Err(refusal)) => (balances, Err(refusal)),
        (taken, Ok(out)) => match deposit_result(taken, to, amount) {
            (_, Err(refusal)) => (balances, Err(refusal)),
            (given, Ok(into)) => (given, Ok((out, into))),
        },
    }
}

/// What a transfer between two existing accounts does: the sender is looked
/// for first, then the recipient, then the funds.
pub open spec fn send_result(balances: Balances, from: Seq<char>, to: Seq<char>, amount: u64) -> (
    Balances,
    Result<(TxView, TxView), AccountingErrorView>,
) {
    if !balances.contains_key(from) {
        (balances, Err(AccountingErrorView::AccountNotFound(from)))
    } else if !balances.contains_key(to) {
        (balances, Err(AccountingErrorView::AccountNotFound(to)))
    } else {
        transfer_result(balances, from, to, amount)
    }
}

/// The answer of an operation as a mathematical value.
pub open spec fn answer_of(r: Result<Tx, AccountingError>) -> Result<TxView, AccountingErrorView> {
    match r {
        Ok(tx) => Ok(tx@),
        Err(refusal) => Err(refusal@),
    }
}

/// The answer of a transfer as a mathematical value.
pub open spec fn answers_of(r: Result<(Tx, Tx), AccountingError>) -> Result<
    (TxView, TxView),
    AccountingErrorView,
> {
    match r {
        Ok((out, into)) => Ok((out@, into@)),
        Err(refusal) => Err(refusal@),
    }
}

/// Accounts and the balance that each holds.
pub struct Accounts {
    accounts: StringHashMap<u64>,
}

impl View for Accounts {
    type V = Balances;

    closed spec fn view(&self) -> Balances {
        self.accounts@
    }
}

impl Accounts {
    /// A ledger without accounts.
    pub fn new() -> (ledger: Self)
        ensures
            ledger@ == Balances::empty(),
    {
        Accounts { accounts: StringHashMap::new() }
    }

    /// The balance of an account, if it exists.
    pub fn balance(&self, signer: &str) -> (held: Option<u64>)
        ensures
            held == (if self@.contains_key(signer@) {
                Some(self@[signer@])
            } else {
                None
            }),
    {
        match self.accounts.get(signer) {
            Some(balance) => Some(*balance),
            None => None,
        }
    }

    /// Deposits the amount into the signer's account, which is opened if it
    /// does not exist. Refused when the balance would overflow.
    pub fn deposit(&mut self, signer: &str, amount: u64) -> (r: Result<Tx, AccountingError>)
        ensures
            (final(self)@, answer_of(r)) == deposit_result(old(self)@, signer@, amount),
    {
        match self.balance(signer) {
            Some(balance) => match balance.checked_add(amount) {
                Some(sum) => {
                    self.accounts.insert(signer.to_owned(), sum);
                    Ok(Tx::Deposit { account: signer.to_owned(), amount })
                },
                None => Err(AccountingError::AccountOverFunded(signer.to_owned(), amount)),
            },
            None => {
                self.accounts.insert(signer.to_owned(), amount);
                Ok(Tx::Deposit { account: signer.to_owned(), amount })
            },
        }
    }

    /// Withdraws the amount from the signer's account. Refused when there is
    /// no such account or when it holds less.
    pub fn withdraw(&mut self, signer: &str, amount: u64) -> (r: Result<Tx, AccountingError>)
        ensures
            (final(self)@, answer_of(r)) == withdraw_result(old(self)@, signer@, amount),
    {
        match self.balance(signer) {
            Some(balance) => match balance.checked_sub(amount) {
                Some(rest) => {
                    self.accounts.insert(signer.to_owned(), rest);
                    Ok(Tx::Withdraw { account: signer.to_owned(), amount })
                },
                None => Err(AccountingError::AccountUnderFunded(signer.to_owned(), amount)),
            },
            None => Err(AccountingError::AccountNotFound(signer.to_owned())),
        }
    }

    /// Withdraws the amount from the sender and deposits it with the
    /// recipient, whose account is opened if it does not exist. When the
    /// deposit is refused the sender gets the amount back.
    pub fn send_version1(&mut self, sender: &str, recipient: &str, amount: u64) -> (r: Result<
        (Tx, Tx),
        AccountingError,
    >)
        ensures
            (final(self)@, answers_of(r))
                == transfer_result(old(self)@, sender@, recipient@, amount),
    {
        match self.withdraw(sender, amount) {
            Ok(w_tx) => {
                match self.deposit(recipient, amount) {
                    Ok(d_tx) => Ok((w_tx, d_tx)),
                    Err(d_err) => {
                        let back = self.deposit(sender, amount);
                        proof {
                            assert(self@ =~= old(self)@);
                        }
                        match back {
                            Ok(_) => Err(d_err),
                            Err(e) => Err(e),
                        }
                    },
                }
            },
            Err(w_err) => Err(w_err),
        }
    }

    /// Moves the amount from the sender to the recipient. Both accounts must
    /// exist and the sender must hold the amount; when the recipient's balance
    /// would overflow, nothing changes.
    pub fn send(&mut self, sender: &str, recipient: &str, amount: u64) -> (r: Result<
        (Tx, Tx),
        AccountingError,
    >)
        ensures
            (final(self)@, answers_of(r)) == send_result(old(self)@, sender@, recipient@, amount),
    {
        let funds = self.balance(sender);
        let known = self.accounts.contains_key(recipient);
        match funds {
            None => Err(AccountingError::AccountNotFound(sender.to_owned())),
            Some(held) => {
                if !known {
                    Err(AccountingError::AccountNotFound(recipient.to_owned()))
                } else if held < amount {
                    Err(AccountingError::AccountUnderFunded(sender.to_owned(), amount))
                } else {
                    let tx_withdraw = match self.withdraw(sender, amount) {
                        Ok(tx) => tx,
                        Err(e) => {
                            return Err(e);
                        },
                    };
                    match self.deposit(recipient, amount) {
                        Ok(tx_deposit) => Ok((tx_withdraw, tx_deposit)),
                        Err(e) => {
                            let back = self.deposit(sender, amount);
                            proof {
                                assert(self@ =~= old(self)@);
                            }
                            let _ = back.unwrap();
                            Err(e)
                        },
                    }
                }
            },
        }
    }
}

} // verus!
