//! Column ids, iteration directions and batched write operations.
use vstd::prelude::*;

verus! {

/// The number of columns of a database.
pub const COLUMN_COUNT: usize = 17;

/// Database tables column ids.
#[derive(Copy, Clone, Debug, PartialEq, Eq, Structural)]
pub enum Column {
    /// The column id of metadata about the blockchain
    Metadata,
    /// The raw code of contracts
    ContractsRawCode,
    /// The salt and state root of contracts
    ContractsInfo,
    /// The state slots of contracts
    ContractsState,
    /// The latest UTXO of contracts
    ContractsLatestUtxo,
    /// The assets of contracts
    ContractsAssets,
    /// Coins
    Coins,
    /// The column of the table that stores `true` if `owner` owns `Coin` with `coin_id`
    OwnedCoins,
    /// Transactions
    Transactions,
    /// Transaction id to current status
    TransactionStatus,
    /// The column of the table of all `owner`'s transactions
    TransactionsByOwnerBlockIdx,
    /// Receipts
    Receipts,
    /// Fuel blocks
    FuelBlocks,
    /// Maps fuel block id to fuel block hash
    FuelBlockIds,
    /// Messages
    Messages,
    /// The column of the table that stores `true` if `owner` owns `Message` with `message_id`
    OwnedMessageIds,
    /// The column that stores the consensus metadata associated with a finalized fuel block
    FuelBlockConsensus,
}

/// The numeric id of a column.
pub open spec fn column_id(c: Column) -> nat {
    match c {
        Column::Metadata => 0,
        Column::ContractsRawCode => 1,
        Column::ContractsInfo => 2,
        Column::ContractsState => 3,
        Column::ContractsLatestUtxo => 4,
        Column::ContractsAssets => 5,
        Column::Coins => 6,
        Column::OwnedCoins => 7,
        Column::Transactions => 8,
        Column::TransactionStatus => 9,
        Column::TransactionsByOwnerBlockIdx => 10,
        Column::Receipts => 11,
        Column::FuelBlocks => 12,
        Column::FuelBlockIds => 13,
        Column::Messages => 14,
        Column::OwnedMessageIds => 15,
        Column::FuelBlockConsensus => 16,
    }
}

/// Distinct columns have distinct ids, all below the column count.
pub proof fn lemma_column_id(c: Column, d: Column)
    ensures
        column_id(c) < COLUMN_COUNT,
        column_id(c) == column_id(d) <==> c == d,
{
}

impl Column {
    /// The numeric id of this column.
    pub fn id(&self) -> (r: u32)
        ensures
            r == column_id(*self),
    {
        match self {
            Column::Metadata => 0,
            Column::ContractsRawCode => 1,
            Column::ContractsInfo => 2,
            Column::ContractsState => 3,
            Column::ContractsLatestUtxo => 4,
            Column::ContractsAssets => 5,
            Column::Coins => 6,
            Column::OwnedCoins => 7,
            Column::Transactions => 8,
            Column::TransactionStatus => 9,
            Column::TransactionsByOwnerBlockIdx => 10,
            Column::Receipts => 11,
            Column::FuelBlocks => 12,
            Column::FuelBlockIds => 13,
            Column::Messages => 14,
            Column::OwnedMessageIds => 15,
            Column::FuelBlockConsensus => 16,
        }
    }
}

/// The direction in which the entries of a column are walked.
#[derive(Copy, Clone, Debug, PartialOrd, PartialEq, Eq, Structural)]
pub enum IterDirection {
    Forward,
    Reverse,
}

impl Default for IterDirection {
    fn default() -> (r: Self)
        ensures
            r == IterDirection::Forward,
    {
        IterDirection::Forward
    }
}

/// One write of a batch.
#[derive(Debug)]
pub enum WriteOperation {
    /// Store the value (third field) under the key (first field) of the column.
    Insert(Vec<u8>, Column, Vec<u8>),
    /// Remove the key of the column.
    Remove(Vec<u8>, Column),
}

} // verus!
