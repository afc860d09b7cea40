//! The local virtual machine: its accounts, what a call hands it, and what
//! comes back.
use crate::types::Address;
use crate::wide;
use revm::primitives::{
    AccountInfo, Address as EvmAddress, Bytecode, Bytes, Env, ExecutionResult, SpecId, TransactTo,
    U256 as EvmU256,
};
use revm::{Evm, InMemoryDB};
use vstd::prelude::*;

verus! {

/// The in-memory database of accounts of revm.
#[verifier::external_type_specification]
#[verifier::external_body]
#[verifier::reject_recursive_types(ExtDB)]
pub struct ExCacheDB<ExtDB>(revm::db::CacheDB<ExtDB>);

/// The empty database below it.
#[verifier::external_type_specification]
#[verifier::external_body]
#[verifier::reject_recursive_types(E)]
pub struct ExEmptyDB<E>(revm::db::EmptyDBTyped<E>);

/// The environment of a transaction in revm.
#[verifier::external_type_specification]
#[verifier::external_body]
pub struct ExEnv(revm::primitives::Env);

/// An account of the database.
#[verifier::ext_equal]
pub struct Account {
    pub balance: nat,
    pub nonce: nat,
    pub code: Seq<u8>,
    /// Whether the account counts as not existing, though it has storage.
    pub missing: bool,
    pub storage: Map<nat, nat>,
}

/// The accounts of a database by address.
pub type Accounts = Map<Seq<u8>, Account>;

/// The accounts that a database holds which was made and filled by the
/// functions below.
pub uninterp spec fn accounts_of(db: InMemoryDB) -> Map<Seq<u8>, Account>;

/// The accounts once one of them has been given its balance, nonce and code:
/// a new one exists and has no storage, an old one keeps both as they were.
pub open spec fn with_info(
    accounts: Accounts,
    address: Seq<u8>,
    balance: nat,
    nonce: nat,
    code: Seq<u8>,
) -> Accounts {
    let known = accounts.contains_key(address);
    accounts.insert(
        address,
        Account {
            balance,
            nonce,
            code,
            missing: known && accounts[address].missing,
            storage: if known {
                accounts[address].storage
            } else {
                Map::empty()
            },
        },
    )
}

/// The accounts once a storage slot of one of them has been written: a new
/// one counts as not existing, an old one keeps all else as it was.
pub open spec fn with_slot(
    accounts: Accounts,
    address: Seq<u8>,
    slot: nat,
    value: nat,
) -> Accounts {
    let account = if accounts.contains_key(address) {
        accounts[address]
    } else {
        Account { balance: 0, nonce: 0, code: seq![], missing: true, storage: Map::empty() }
    };
    accounts.insert(
        address,
        Account { storage: account.storage.insert(slot, value), ..account },
    )
}

/// No accounts at all.
pub open spec fn no_accounts() -> Accounts {
    Map::empty()
}

/// Makes a database with `InMemoryDB::default`: it holds no accounts.
#[verifier::external_body]
pub(crate) fn empty_db() -> (db: InMemoryDB)
    ensures
        accounts_of(db) == no_accounts(),
{
    InMemoryDB::default()
}

/// Gives an account its balance, nonce and code with
/// `CacheDB::insert_account_info`, the code being the raw bytes and its hash
/// the one that `Bytecode::hash_slow` computes. Other accounts, and the
/// storage of this one, stay as they are.
#[verifier::external_body]
pub(crate) fn insert_code_account(
    db: &mut InMemoryDB,
    address: Address,
    balance: u128,
    nonce: u64,
    code: Vec<u8>,
)
    ensures
        accounts_of(*final(db)) == with_info(
            accounts_of(*old(db)),
            address@,
            balance as nat,
            nonce as nat,
            code@,
        ),
{
    let code = Bytecode::new_raw(Bytes::from(code));
    let info = AccountInfo::new(EvmU256::from(balance), nonce, code.hash_slow(), code);
    db.insert_account_info(EvmAddress::from(address), info);
}

/// Gives an account its balance, without code and with nonce 0, with
/// `AccountInfo::from_balance` and `CacheDB::insert_account_info`. Other
/// accounts, and the storage of this one, stay as they are.
#[verifier::external_body]
pub(crate) fn insert_balance_account(db: &mut InMemoryDB, address: Address, balance: u128)
    ensures
        accounts_of(*final(db)) == with_info(
            accounts_of(*old(db)),
            address@,
            balance as nat,
            0,
            seq![],
        ),
{
    let info = AccountInfo::from_balance(EvmU256::from(balance));
    db.insert_account_info(EvmAddress::from(address), info);
}

/// Writes a storage slot with `CacheDB::insert_account_storage`, slot and
/// value being given by their big-endian bytes. Over the empty database that
/// call cannot fail. An account that is not there yet is added as one that
/// does not exist; nothing else changes.
#[verifier::external_body]
pub(crate) fn insert_slot(db: &mut InMemoryDB, address: Address, slot: &[u8], value: &[u8])
    requires
        slot@.len() <= 32,
        value@.len() <= 32,
    ensures
        accounts_of(*final(db)) == with_slot(
            accounts_of(*old(db)),
            address@,
            wide::from_big_endian(slot@),
            wide::from_big_endian(value@),
        ),
{
    let slot = EvmU256::from_be_slice(slot);
    let value = EvmU256::from_be_slice(value);
    let Ok(()) = db.insert_account_storage(EvmAddress::from(address), slot, value);
}

/// A call of a contract: the chain and block in which it runs, and the
/// transaction itself.
#[verifier::ext_equal]
pub struct Call {
    pub chain_id: nat,
    pub block_number: nat,
    pub timestamp: nat,
    pub caller: Seq<u8>,
    pub contract: Seq<u8>,
    pub calldata: Seq<u8>,
    pub value: nat,
    pub gas_limit: nat,
}

/// The call that an environment describes; none where the environment does
/// not call a contract, or has any setting besides those of a `Call` that is
/// not at its default. The default has no gas price, and no nonce to check.
pub uninterp spec fn call_of(env: Env) -> Option<Call>;

/// Makes the environment of a call from `Env::default`, with the chain,
/// block number, timestamp, caller, contract, calldata, value and gas limit
/// set. The value is given by its big-endian bytes.
#[verifier::external_body]
pub(crate) fn call_env(
    chain_id: u64,
    block: (u64, u64),
    caller: Address,
    contract: Address,
    calldata: Vec<u8>,
    value: &[u8],
    gas_limit: u64,
) -> (env: Box<Env>)
    requires
        value@.len() <= 32,
    ensures
        call_of(*env) == Some(
            (Call {
                chain_id: chain_id as nat,
                block_number: block.0 as nat,
                timestamp: block.1 as nat,
                caller: caller@,
                contract: contract@,
                calldata: calldata@,
                value: wide::from_big_endian(value@),
                gas_limit: gas_limit as nat,
            }),
        ),
{
    let mut env: Box<Env> = Box::default();
    env.cfg.chain_id = chain_id;
    env.block.number = EvmU256::from(block.0);
    env.block.timestamp = EvmU256::from(block.1);
    env.tx.caller = EvmAddress::from(caller);
    env.tx.transact_to = TransactTo::Call(EvmAddress::from(contract));
    env.tx.data = Bytes::from(calldata);
    env.tx.value = EvmU256::from_be_slice(value);
    env.tx.gas_limit = gas_limit;
    env
}

/// How a call ended.
#[derive(Debug, Clone)]
pub enum Outcome {
    /// It returned.
    Success { gas_used: u64 },
    /// It undid itself, with the bytes that it gave as the reason.
    Revert { gas_used: u64, output: Vec<u8> },
    /// It was stopped, for a reason in words.
    Halt { gas_used: u64, reason: String },
    /// It was not begun, for a reason in words.
    Invalid { reason: String },
}

/// How a call ended, with the reasons as sequences.
pub enum Ending {
    Success { gas_used: nat },
    Revert { gas_used: nat, output: Seq<u8> },
    Halt { gas_used: nat, reason: Seq<char> },
    Invalid { reason: Seq<char> },
}

impl View for Outcome {
    type V = Ending;

    open spec fn view(&self) -> Ending {
        match *self {
            Outcome::Success { gas_used } => Ending::Success { gas_used: gas_used as nat },
            Outcome::Revert { gas_used, output } => Ending::Revert {
                gas_used: gas_used as nat,
                output: output@,
            },
            Outcome::Halt { gas_used, reason } => Ending::Halt {
                gas_used: gas_used as nat,
                reason: reason@,
            },
            Outcome::Invalid { reason } => Ending::Invalid { reason: reason@ },
        }
    }
}

/// The gas that a call used; none where it was not begun.
pub open spec fn gas_of(ending: Ending) -> nat {
    match ending {
        Ending::Success { gas_used } => gas_used,
        Ending::Revert { gas_used, .. } => gas_used,
        Ending::Halt { gas_used, .. } => gas_used,
        Ending::Invalid { .. } => 0,
    }
}

/// How a call ends that runs on the given accounts under the rules of the
/// Cancun fork.
pub uninterp spec fn ending(accounts: Map<Seq<u8>, Account>, call: Call) -> Ending;

/// Runs a call with `Evm::transact` of revm under `SpecId::CANCUN`.
///
/// How it ends is a function of the accounts and the call. The gas that it
/// used does not exceed its limit: revm gives the limit less what remains, and
/// takes refunds off that. The reasons in words are the `Debug` texts of
/// revm's `HaltReason` and `EVMError`.
#[verifier::external_body]
pub(crate) fn transact(db: InMemoryDB, env: Box<Env>) -> (outcome: Outcome)
    requires
        call_of(*env) is Some,
    ensures
        outcome@ == ending(accounts_of(db), call_of(*env).unwrap()),
        gas_of(outcome@) <= call_of(*env).unwrap().gas_limit,
{
    let mut evm = Evm::builder().with_db(db).with_spec_id(SpecId::CANCUN).with_env(env).build();
    match evm.transact().map(|done| done.result) {
        Ok(ExecutionResult::Success { gas_used, .. }) => Outcome::Success { gas_used },
        Ok(ExecutionResult::Revert { gas_used, output }) => {
            Outcome::Revert { gas_used, output: output.to_vec() }
        }
        Ok(ExecutionResult::Halt { gas_used, reason }) => {
            Outcome::Halt { gas_used, reason: format!("{:?}", reason) }
        }
        Err(error) => Outcome::Invalid { reason: format!("{:?}", error) },
    }
}

} // verus!
