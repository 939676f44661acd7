use vstd::prelude::*;

verus! {

/// A key/value pair attached to an event or a response.
#[derive(Debug, Clone, PartialEq, Eq)]
pub struct Attribute {
    pub key: String,
    pub value: String,
}

impl View for Attribute {
    type V = (Seq<char>, Seq<char>);

    open spec fn view(&self) -> (Seq<char>, Seq<char>) {
        (self.key@, self.value@)
    }
}

/// What an event is, as text.
pub struct EventView {
    pub ty: Seq<char>,
    pub attributes: Seq<(Seq<char>, Seq<char>)>,
}

/// A named bag of attributes emitted by a message; returned, never stored.
#[derive(Debug, Clone, PartialEq, Eq)]
pub struct Event {
    pub ty: String,
    pub attributes: Vec<Attribute>,
}

pub open spec fn attributes_view(a: Seq<Attribute>) -> Seq<(Seq<char>, Seq<char>)> {
    a.map_values(|x: Attribute| x@)
}

impl View for Event {
    type V = EventView;

    open spec fn view(&self) -> EventView {
        EventView { ty: self.ty@, attributes: attributes_view(self.attributes@) }
    }
}

pub open spec fn events_view(e: Seq<Event>) -> Seq<EventView> {
    e.map_values(|x: Event| x@)
}

/// An amount of one denomination.
#[derive(Debug, Clone, PartialEq, Eq)]
pub struct Coin {
    pub denom: String,
    pub amount: u128,
}

/// What a contract entry point returns on success.
#[derive(Debug, Clone, PartialEq, Eq)]
pub struct Response {
    pub attributes: Vec<Attribute>,
    pub events: Vec<Event>,
    /// How many submessages the contract asked to dispatch.
    pub submessages: usize,
    pub data: Option<Vec<u8>>,
}

/// The result of a contract entry point: its response, or the error text it returned.
#[derive(Debug, Clone, PartialEq, Eq)]
pub enum ContractResult {
    Success(Response),
    Failure(String),
}

/// An account: a user key with its sequence number, or a contract instance.
#[derive(Debug, Clone, PartialEq, Eq)]
pub enum Account {
    Base { pubkey: String, sequence: u64 },
    Contract { code_id: u64, label: String, admin: Option<String> },
}

impl Account {
    pub fn copy(&self) -> (r: Account)
        ensures
            r == *self,
    {
        match self {
            Account::Base { pubkey, sequence } => Account::Base {
                pubkey: pubkey.clone(),
                sequence: *sequence,
            },
            Account::Contract { code_id, label, admin } => Account::Contract {
                code_id: *code_id,
                label: label.clone(),
                admin: match admin {
                    Some(a) => Some(a.clone()),
                    None => None,
                },
            },
        }
    }
}

/// A message of a transaction.
#[derive(Debug, Clone, PartialEq, Eq)]
pub enum SdkMsg {
    StoreCode { wasm_byte_code: Vec<u8> },
    Instantiate {
        code_id: u64,
        msg: Vec<u8>,
        funds: Vec<Coin>,
        label: String,
        admin: Option<String>,
    },
    Execute { contract: String, msg: Vec<u8>, funds: Vec<Coin> },
    Migrate { contract: String, code_id: u64, msg: Vec<u8> },
}

/// A read-only query.
#[derive(Debug, Clone, PartialEq, Eq)]
pub enum SdkQuery {
    Info,
    Account { address: String },
    Accounts { start_after: Option<String>, limit: Option<u32> },
    Code { code_id: u64 },
    Codes { start_after: Option<u64>, limit: Option<u32> },
    Contract { contract: String },
    WasmRaw { contract: String, key: Vec<u8> },
    WasmSmart { contract: String, msg: Vec<u8> },
}

#[derive(Debug, Clone, PartialEq, Eq)]
pub struct InfoResponse {
    pub chain_id: String,
    pub height: u64,
    pub code_count: u64,
    pub contract_count: u64,
}

#[derive(Debug, Clone, PartialEq, Eq)]
pub struct AccountResponse {
    pub address: String,
    /// `None` if no account is at the address.
    pub account: Option<Account>,
}

#[derive(Debug, Clone, PartialEq, Eq)]
pub struct CodeResponse {
    pub code_id: u64,
    /// `None` if no code has the id.
    pub wasm_byte_code: Option<Vec<u8>>,
}

#[derive(Debug, Clone, PartialEq, Eq)]
pub struct WasmRawResponse {
    /// `None` if the key is not in the contract's store.
    pub value: Option<Vec<u8>>,
}

#[derive(Debug, PartialEq, Eq)]
pub struct WasmSmartResponse {
    /// The query's answer, or the error text the contract returned.
    pub result: Result<Vec<u8>, String>,
}

} // verus!
