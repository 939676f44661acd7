use vstd::prelude::*;
use vstd::slice::slice_to_vec;
use vstd::utf8::{encode_utf8, encode_utf8_decode_utf8};

use crate::address::{derive_from_label, is_reserved_label, label_address, reserved_label};
use crate::cache::{
    ascending, be_u64, in_namespace, in_range, lemma_namespaces_disjoint, listed, namespaced,
    op_view_ref, u64_to_be, Substore,
};
use crate::order::{bytes_lt, lemma_lex_total, lemma_lex_transitive, lex_lt};
use crate::encoding::{decimal, decimal_of, hex_encode, hex_of, sha256, sha256_of};
use crate::kv::{last_match, lemma_last_match_absent, lemma_last_match_found, lemma_last_match_push,
    lemma_last_match_some, lemma_last_match_update, op_view, KvLog, WriteOp};
use crate::msg::{
    attributes_view, events_view, Account, AccountResponse, Attribute, CodeResponse, Coin,
    ContractResult, Event, EventView, InfoResponse, Response, WasmRawResponse, WasmSmartResponse,
};

verus! {

/// A stored wasm byte code and the account that stored it.
#[derive(Debug, Clone, PartialEq, Eq)]
pub struct Code {
    pub creator: String,
    pub wasm_byte_code: Vec<u8>,
}

/// Why a message or a query failed.
#[derive(Debug, Clone, PartialEq, Eq)]
pub enum StateError {
    Backend(String),
    Vm(String),
    Serde(String),
    Auth(String),
    Contract(String),
    CodeNotFound { code_id: u64 },
    ContractNotFound { address: String },
    AccountFound { address: String },
    IllegalLabel,
    FundTransferFailed(String),
    SubmessagesUnsupported,
    MigrationUnsupported,
}

impl StateError {
    pub fn code_not_found(code_id: u64) -> (r: StateError)
        ensures
            r == (StateError::CodeNotFound { code_id }),
    {
        StateError::CodeNotFound { code_id }
    }

    pub fn contract_not_found(address: &String) -> (r: StateError)
        ensures
            r == (StateError::ContractNotFound { address: *address }),
    {
        StateError::ContractNotFound { address: address.clone() }
    }
}

/// The application hash reported at height `h`.
pub open spec fn app_hash(h: u64) -> Seq<u8> {
    sha256_of(be_u64(h))
}

pub open spec fn accounts_view(a: Seq<(String, Account)>) -> Seq<(Seq<char>, Account)> {
    a.map_values(|e: (String, Account)| (e.0@, e.1))
}

/// The event of a stored code.
pub open spec fn store_code_event(sender: Seq<char>, code_id: u64, wasm: Seq<u8>) -> EventView {
    EventView {
        ty: "store_code"@,
        attributes: seq![
            ("sender"@, sender),
            ("code_id"@, decimal_of(code_id as nat)),
            ("code_hash"@, hex_of(sha256_of(wasm))),
        ],
    }
}

/// The event of an instantiated contract, followed by the attributes its response carried.
pub open spec fn instantiate_event(
    sender: Seq<char>,
    code_id: u64,
    addr: Seq<char>,
    attrs: Seq<(Seq<char>, Seq<char>)>,
) -> EventView {
    EventView {
        ty: "instantiate_contract"@,
        attributes: seq![
            ("sender"@, sender),
            ("code_id"@, decimal_of(code_id as nat)),
            ("contract_address"@, addr),
        ] + attrs,
    }
}

/// The event of an executed contract, followed by the attributes its response carried.
pub open spec fn execute_event(
    sender: Seq<char>,
    addr: Seq<char>,
    attrs: Seq<(Seq<char>, Seq<char>)>,
) -> EventView {
    EventView {
        ty: "execute_contract"@,
        attributes: seq![("sender"@, sender), ("contract_address"@, addr)] + attrs,
    }
}

/// The events of a finished call: the call's own event, then the events the contract returned.
pub open spec fn call_events(call: ContractCall, sender: Seq<char>, resp: Response) -> Seq<
    EventView,
> {
    let attrs = attributes_view(resp.attributes@);
    let primary = match call.kind {
        CallKind::Instantiate { code_id, .. } => instantiate_event(
            sender,
            code_id,
            call.address@,
            attrs,
        ),
        _ => execute_event(sender, call.address@, attrs),
    };
    call.fund_events() + seq![primary] + events_view(resp.events@)
}

/// Why a call whose contract returned `resp` is refused, if it is.
pub open spec fn call_refusal(s: State, call: ContractCall, resp: Response) -> Option<StateError> {
    if resp.submessages > 0 {
        Some(StateError::SubmessagesUnsupported)
    } else {
        match call.kind {
            CallKind::Instantiate { code_id, .. } => if s.code_of(code_id) is None {
                Some(StateError::CodeNotFound { code_id })
            } else if s.account_of(call.address@) is Some {
                Some(StateError::AccountFound { address: call.address })
            } else {
                None
            },
            _ => if s.contract_code_id(call.address@) is None {
                Some(StateError::ContractNotFound { address: call.address })
            } else {
                None
            },
        }
    }
}

/// `new` is `old` after `call` succeeded: the store holds the writes of the bank transfer, then
/// those of the contract, and an instantiated contract has its account.
pub open spec fn call_committed(old: State, new: State, call: ContractCall) -> bool {
    &&& forall|k: Seq<u8>| #[trigger] new.store.value_of(k) == call.store_after(&old.store, k)
    &&& new.height == old.height
    &&& new.chain_id == old.chain_id
    &&& new.codes == old.codes
    &&& match call.kind {
        CallKind::Instantiate { code_id, label, admin } => {
            &&& new.contract_count == old.contract_count + 1
            &&& forall|a: Seq<char>|
                #[trigger] new.account_of(a) == if a == call.address@ {
                    Some(Account::Contract { code_id, label, admin })
                } else {
                    old.account_of(a)
                }
        },
        _ => {
            &&& new.contract_count == old.contract_count
            &&& new.accounts == old.accounts
        },
    }
}

/// `event` in front of `events`.
pub fn prepend(event: Event, events: Vec<Event>) -> (r: Vec<Event>)
    ensures
        r@ == seq![event] + events@,
{
    let ghost rest = events@;
    let ghost first = event;
    let mut events = events;
    events.insert(0, event);
    assert(events@ =~= seq![first] + rest);
    events
}

/// `new` is `old` after storing `wasm`: it has one more code, the new one last, holding `wasm`.
pub open spec fn stored_code(old: State, new: State, wasm: Seq<u8>) -> bool {
    &&& new.codes@.len() == old.codes@.len() + 1
    &&& new.codes@.subrange(0, old.codes@.len() as int) == old.codes@
    &&& new.code_of((old.codes@.len() + 1) as u64) == Some(wasm)
}

pub open spec fn opt_string_view(o: &Option<String>) -> Option<Seq<char>> {
    match o {
        Some(s) => Some(s@),
        None => None,
    }
}

/// Account responses in strictly ascending order of their addresses' bytes.
pub open spec fn accounts_ascending(r: Seq<AccountResponse>) -> bool {
    forall|i: int, j: int|
        0 <= i < j < r.len() ==> lex_lt(
            encode_utf8(#[trigger] r[i].address@),
            encode_utf8(#[trigger] r[j].address@),
        )
}

pub open spec fn account_listed(r: Seq<AccountResponse>, a: Seq<char>) -> bool {
    exists|i: int| 0 <= i < r.len() && (#[trigger] r[i]).address@ == a
}

/// `a` comes after `start_after` in the order of address bytes (always where `None`).
pub open spec fn after_start(a: Seq<char>, start_after: Option<Seq<char>>) -> bool {
    match start_after {
        Some(s) => lex_lt(encode_utf8(s), encode_utf8(a)),
        None => true,
    }
}

/// The application's state and its transition rules.
pub struct State {
    /// Current block height.
    pub height: u64,
    /// Identifier of the chain.
    pub chain_id: String,
    /// Stored codes: the code with id `i` is at index `i - 1`.
    pub codes: Vec<Code>,
    /// How many contracts were instantiated.
    pub contract_count: u64,
    /// Accounts by address; the latest entry for an address is its account.
    pub accounts: Vec<(String, Account)>,
    /// The contracts' stores, each key under its contract's namespace.
    pub store: KvLog,
}

impl State {
    /// The account at `addr`, if any.
    pub open spec fn account_of(&self, addr: Seq<char>) -> Option<Account> {
        last_match(accounts_view(self.accounts@), addr)
    }

    /// The code id of the contract at `addr`, if a contract is there.
    pub open spec fn contract_code_id(&self, addr: Seq<char>) -> Option<u64> {
        match self.account_of(addr) {
            Some(Account::Contract { code_id, .. }) => Some(code_id),
            _ => None,
        }
    }

    /// The bytes of the code with id `id`, if it was stored.
    pub open spec fn code_of(&self, id: u64) -> Option<Seq<u8>> {
        if 1 <= id <= self.codes@.len() {
            Some(self.codes@[id - 1].wasm_byte_code@)
        } else {
            None
        }
    }

    /// The value under `key` in the store of the contract at `addr`.
    pub open spec fn value_at(&self, addr: Seq<char>, key: Seq<u8>) -> Option<Seq<u8>> {
        self.store.value_of(namespaced(encode_utf8(addr), key))
    }

    pub open spec fn wf(&self) -> bool {
        &&& self.contract_count <= self.accounts@.len()
        &&& forall|i: int|
            0 <= i < self.accounts@.len() ==> match #[trigger] self.accounts@[i].1 {
                Account::Contract { code_id, .. } => 1 <= code_id <= self.codes@.len(),
                _ => true,
            }
    }

    /// A chain at height zero with no code, account or contract.
    pub fn new(chain_id: String) -> (r: State)
        ensures
            r.wf(),
            r.height == 0,
            r.chain_id == chain_id,
            r.codes@.len() == 0,
            r.contract_count == 0,
            r.accounts@.len() == 0,
            forall|a: Seq<char>, k: Seq<u8>| #[trigger] r.value_at(a, k) == None::<Seq<u8>>,
    {
        let r = State {
            height: 0,
            chain_id,
            codes: Vec::new(),
            contract_count: 0,
            accounts: Vec::new(),
            store: KvLog::new(),
        };
        r
    }

    /// The block height and the application hash, `sha256` of the height's big-endian bytes.
    pub fn info(&self) -> (r: (u64, Vec<u8>))
        ensures
            r.0 == self.height,
            r.1@ == app_hash(self.height),
    {
        let bytes = u64_to_be(self.height);
        let app_hash = sha256(bytes.as_slice());
        (self.height, app_hash)
    }

    /// Advances the block height by one; returns the new height and application hash.
    pub fn commit(&mut self) -> (r: (u64, Vec<u8>))
        requires
            old(self).height < u64::MAX,
        ensures
            *final(self) == (State { height: (old(self).height + 1) as u64, ..*old(self) }),
            r.0 == final(self).height,
            r.1@ == app_hash(final(self).height),
    {
        self.height = self.height + 1;
        self.info()
    }

    pub fn code_count(&self) -> (r: u64)
        ensures
            r == self.codes@.len(),
    {
        self.codes.len() as u64
    }

    /// Stores `wasm_byte_code` under the next code id.
    pub fn store_code(&mut self, sender: &str, wasm_byte_code: Vec<u8>) -> (r: Event)
        requires
            old(self).wf(),
        ensures
            final(self).wf(),
            stored_code(*old(self), *final(self), wasm_byte_code@),
            final(self).codes@.last().creator@ == sender@,
            final(self).height == old(self).height,
            final(self).chain_id == old(self).chain_id,
            final(self).contract_count == old(self).contract_count,
            final(self).accounts == old(self).accounts,
            final(self).store == old(self).store,
            r@ == store_code_event(
                sender@,
                (old(self).codes@.len() + 1) as u64,
                wasm_byte_code@,
            ),
    {
        let hash = sha256(wasm_byte_code.as_slice());
        let hash_str = hex_encode(hash.as_slice());
        let ghost w = wasm_byte_code@;
        let ghost old_codes = self.codes@;
        self.codes.push(Code { creator: sender.to_owned(), wasm_byte_code });
        let code_id = self.codes.len() as u64;
        assert(self.codes@.subrange(0, old_codes.len() as int) =~= old_codes);
        assert forall|i: int|
            0 <= i < self.accounts@.len() implies match #[trigger] self.accounts@[i].1 {
            Account::Contract { code_id, .. } => 1 <= code_id <= self.codes@.len(),
            _ => true,
        } by {}
        let attributes = vec![
            Attribute { key: "sender".to_owned(), value: sender.to_owned() },
            Attribute { key: "code_id".to_owned(), value: decimal(code_id) },
            Attribute { key: "code_hash".to_owned(), value: hash_str },
        ];
        let event = Event { ty: "store_code".to_owned(), attributes };
        assert(event@.attributes =~= store_code_event(sender@, code_id, w).attributes);
        event
    }

    /// Index of the latest account entry for `addr`.
    fn find_account(&self, addr: &String) -> (r: Option<usize>)
        ensures
            match r {
                Some(i) => i < self.accounts@.len() && self.accounts@[i as int].0@ == addr@
                    && self.account_of(addr@) == Some(self.accounts@[i as int].1) && forall|j: int|
                    i < j < self.accounts@.len() ==> #[trigger] self.accounts@[j].0@ != addr@,
                None => self.account_of(addr@) == None::<Account>,
            },
    {
        let ghost s = accounts_view(self.accounts@);
        let mut i: usize = self.accounts.len();
        while i > 0
            invariant
                i <= self.accounts@.len(),
                s == accounts_view(self.accounts@),
                forall|j: int| i <= j < s.len() ==> s[j].0 != addr@,
            decreases i,
        {
            i = i - 1;
            assert(s[i as int].0 == self.accounts@[i as int].0@);
            if self.accounts[i].0 == *addr {
                proof {
                    lemma_last_match_found(s, i as int, addr@);
                    assert forall|j: int| i < j < self.accounts@.len() implies #[trigger] self.accounts@[j].0@ != addr@ by {
                        assert(s[j].0 == self.accounts@[j].0@);
                    }
                }
                return Some(i);
            }
        }
        proof {
            lemma_last_match_absent(s, addr@);
        }
        None
    }

    pub fn query_info(&self) -> (r: InfoResponse)
        ensures
            r.chain_id == self.chain_id,
            r.height == self.height,
            r.code_count == self.codes@.len(),
            r.contract_count == self.contract_count,
    {
        InfoResponse {
            chain_id: self.chain_id.clone(),
            height: self.height,
            code_count: self.code_count(),
            contract_count: self.contract_count,
        }
    }

    /// The account at `address`; `None` in the response where there is none.
    pub fn query_account(&self, address: &String) -> (r: AccountResponse)
        ensures
            r.address == *address,
            r.account == self.account_of(address@),
    {
        let account = match self.find_account(address) {
            Some(i) => Some(self.accounts[i].1.copy()),
            None => None,
        };
        AccountResponse { address: address.clone(), account }
    }

    /// The code with id `code_id`; `None` in the response where there is none.
    pub fn query_code(&self, code_id: u64) -> (r: CodeResponse)
        ensures
            r.code_id == code_id,
            op_view(&r.wasm_byte_code) == self.code_of(code_id),
    {
        let n: usize = self.codes.len();
        if code_id >= 1 && code_id - 1 < n as u64 {
            let i: usize = (code_id - 1) as usize;
            assert(i as int == code_id - 1);
            let w = slice_to_vec(self.codes[i].wasm_byte_code.as_slice());
            CodeResponse { code_id, wasm_byte_code: Some(w) }
        } else {
            CodeResponse { code_id, wasm_byte_code: None }
        }
    }

    /// The codes whose ids follow `start_after` (all where `None`), in ascending order, at most
    /// `limit` of them (all where `None`).
    pub fn query_codes(&self, start_after: Option<u64>, limit: Option<u32>) -> (r: Vec<CodeResponse>)
        ensures
            ({
                let first = match start_after {
                    Some(s) => if s < self.codes@.len() { s as int } else { self.codes@.len() as int },
                    None => 0,
                };
                let remaining = self.codes@.len() - first;
                &&& r@.len() == match limit {
                    Some(l) => if (l as int) < remaining { l as int } else { remaining },
                    None => remaining,
                }
                &&& forall|i: int|
                    0 <= i < r@.len() ==> (#[trigger] r@[i]).code_id == first + i + 1 && op_view(
                        &r@[i].wasm_byte_code,
                    ) == self.code_of((first + i + 1) as u64)
            }),
    {
        let n: usize = self.codes.len();
        let first: usize = match start_after {
            Some(s) => if s < n as u64 { s as usize } else { n },
            None => 0,
        };
        let end: usize = match limit {
            Some(l) => if (l as usize) < n - first { first + l as usize } else { n },
            None => n,
        };
        let mut r: Vec<CodeResponse> = Vec::new();
        let mut i: usize = first;
        while i < end
            invariant
                first <= i <= end <= n,
                n == self.codes@.len(),
                r@.len() == i - first,
                forall|j: int|
                    0 <= j < r@.len() ==> (#[trigger] r@[j]).code_id == first + j + 1 && op_view(
                        &r@[j].wasm_byte_code,
                    ) == self.code_of((first + j + 1) as u64),
            decreases end - i,
        {
            let w = slice_to_vec(self.codes[i].wasm_byte_code.as_slice());
            r.push(CodeResponse { code_id: i as u64 + 1, wasm_byte_code: Some(w) });
            i = i + 1;
        }
        r
    }

    /// Adds the account at `addr` to the ascending `r` where it is after `start_after`, exists,
    /// and is not listed yet.
    fn add_account_in_order(
        &self,
        r: &mut Vec<AccountResponse>,
        addr: &String,
        start_after: &Option<String>,
    )
        requires
            accounts_ascending(old(r)@),
            forall|i: int|
                0 <= i < old(r)@.len() ==> after_start(
                    (#[trigger] old(r)@[i]).address@,
                    opt_string_view(start_after),
                ) && old(r)@[i].account is Some && old(r)@[i].account == self.account_of(
                    old(r)@[i].address@,
                ),
        ensures
            accounts_ascending(final(r)@),
            forall|i: int|
                0 <= i < final(r)@.len() ==> after_start(
                    (#[trigger] final(r)@[i]).address@,
                    opt_string_view(start_after),
                ) && final(r)@[i].account is Some && final(r)@[i].account == self.account_of(
                    final(r)@[i].address@,
                ),
            forall|a: Seq<char>| account_listed(old(r)@, a) ==> account_listed(final(r)@, a),
            after_start(addr@, opt_string_view(start_after)) && self.account_of(addr@) is Some
                ==> account_listed(final(r)@, addr@),
    {
        let key = addr.as_str().as_bytes();
        match start_after {
            Some(s) => {
                if !bytes_lt(s.as_str().as_bytes(), key) {
                    return;
                }
            },
            None => {},
        }
        let resp = self.query_account(addr);
        if resp.account.is_none() {
            return;
        }
        let mut j: usize = 0;
        while j < r.len() && bytes_lt(r[j].address.as_str().as_bytes(), key)
            invariant
                j <= r@.len(),
                key@ == encode_utf8(addr@),
                forall|a: int| 0 <= a < j ==> lex_lt(encode_utf8((#[trigger] r@[a]).address@), key@),
            decreases r@.len() - j,
        {
            j = j + 1;
        }
        if j < r.len() && r[j].address == *addr {
            return;
        }
        let ghost old_r = r@;
        proof {
            if j < old_r.len() {
                encode_utf8_decode_utf8(addr@);
                encode_utf8_decode_utf8(old_r[j as int].address@);
                lemma_lex_total(key@, encode_utf8(old_r[j as int].address@));
                assert forall|b: int| j <= b < old_r.len() implies lex_lt(
                    key@,
                    encode_utf8((#[trigger] old_r[b]).address@),
                ) by {
                    if b > j {
                        lemma_lex_transitive(
                            key@,
                            encode_utf8(old_r[j as int].address@),
                            encode_utf8(old_r[b].address@),
                        );
                    }
                }
            }
        }
        let ghost entry = resp;
        r.insert(j, resp);
        proof {
            assert(r@ == old_r.insert(j as int, entry));
            assert forall|a: int, b: int| 0 <= a < b < r@.len() implies lex_lt(
                encode_utf8(#[trigger] r@[a].address@),
                encode_utf8(#[trigger] r@[b].address@),
            ) by {
                if b < j {
                    assert(r@[a] == old_r[a] && r@[b] == old_r[b]);
                } else if b == j {
                    assert(r@[a] == old_r[a]);
                } else if a == j {
                    assert(r@[b] == old_r[b - 1]);
                } else if a < j {
                    assert(r@[a] == old_r[a] && r@[b] == old_r[b - 1]);
                    lemma_lex_transitive(
                        encode_utf8(old_r[a].address@),
                        key@,
                        encode_utf8(old_r[b - 1].address@),
                    );
                } else {
                    assert(r@[a] == old_r[a - 1] && r@[b] == old_r[b - 1]);
                }
            }
            assert forall|i: int|
                0 <= i < r@.len() implies after_start(
                (#[trigger] r@[i]).address@,
                opt_string_view(start_after),
            ) && r@[i].account is Some && r@[i].account == self.account_of(r@[i].address@) by {
                if i < j {
                    assert(r@[i] == old_r[i]);
                } else if i > j {
                    assert(r@[i] == old_r[i - 1]);
                }
            }
            assert forall|a: Seq<char>| account_listed(old_r, a) implies account_listed(r@, a) by {
                let x = choose|x: int| 0 <= x < old_r.len() && (#[trigger] old_r[x]).address@ == a;
                if x < j {
                    assert(r@[x] == old_r[x]);
                } else {
                    assert(r@[x + 1] == old_r[x]);
                }
            }
            assert(r@[j as int].address@ == addr@);
        }
    }

    /// The accounts whose addresses come after `start_after`, in ascending order of their bytes,
    /// at most `limit` of them (all where `None`).
    pub fn query_accounts(&self, start_after: Option<String>, limit: Option<u32>) -> (r: Vec<
        AccountResponse,
    >)
        ensures
            accounts_ascending(r@),
            forall|i: int|
                0 <= i < r@.len() ==> after_start(
                    (#[trigger] r@[i]).address@,
                    opt_string_view(&start_after),
                ) && r@[i].account is Some && r@[i].account == self.account_of(r@[i].address@),
            limit matches Some(l) ==> r@.len() <= l,
            forall|a: Seq<char>|
                after_start(a, opt_string_view(&start_after)) && self.account_of(a) is Some
                    ==> account_listed(r@, a) || (limit matches Some(l) && r@.len() == l && (l
                    == 0 || lex_lt(encode_utf8(r@.last().address@), encode_utf8(a)))),
    {
        let mut r: Vec<AccountResponse> = Vec::new();
        let ghost s = accounts_view(self.accounts@);
        let mut i: usize = 0;
        while i < self.accounts.len()
            invariant
                i <= self.accounts@.len(),
                s == accounts_view(self.accounts@),
                accounts_ascending(r@),
                forall|x: int|
                    0 <= x < r@.len() ==> after_start(
                        (#[trigger] r@[x]).address@,
                        opt_string_view(&start_after),
                    ) && r@[x].account is Some && r@[x].account == self.account_of(r@[x].address@),
                forall|a: int|
                    0 <= a < i ==> (after_start((#[trigger] s[a]).0, opt_string_view(&start_after))
                        && self.account_of(s[a].0) is Some ==> account_listed(r@, s[a].0)),
            decreases self.accounts@.len() - i,
        {
            let ghost before = r@;
            self.add_account_in_order(&mut r, &self.accounts[i].0, &start_after);
            proof {
                assert(s[i as int].0 == self.accounts@[i as int].0@);
                assert forall|a: int|
                    0 <= a < i + 1 implies (after_start(
                    (#[trigger] s[a]).0,
                    opt_string_view(&start_after),
                ) && self.account_of(s[a].0) is Some ==> account_listed(r@, s[a].0)) by {
                    if a < i && after_start(s[a].0, opt_string_view(&start_after))
                        && self.account_of(s[a].0) is Some {
                        assert(account_listed(before, s[a].0));
                    }
                }
            }
            i = i + 1;
        }
        let ghost full = r@;
        proof {
            assert forall|a: Seq<char>|
                after_start(a, opt_string_view(&start_after)) && self.account_of(a) is Some implies account_listed(
                full,
                a,
            ) by {
                lemma_last_match_some(s, a);
                let x = choose|x: int| 0 <= x < s.len() && (#[trigger] s[x]).0 == a;
            }
        }
        match limit {
            Some(l) => {
                if (l as usize) < r.len() {
                    r.truncate(l as usize);
                    proof {
                        assert(r@ =~= full.subrange(0, l as int));
                        assert forall|a: Seq<char>|
                            after_start(a, opt_string_view(&start_after)) && self.account_of(a)
                                is Some implies account_listed(r@, a) || (r@.len() == l && (l == 0
                            || lex_lt(encode_utf8(r@.last().address@), encode_utf8(a)))) by {
                            assert(account_listed(full, a));
                            assert(accounts_ascending(full));
                            let x = choose|x: int| 0 <= x < full.len() && (#[trigger] full[x]).address@ == a;
                            if x < l {
                                assert(full.subrange(0, l as int)[x] == full[x]);
                                assert(r@[x] == full[x]);
                            } else if l > 0 {
                                assert(r@.last() == full[l - 1]);
                                assert(lex_lt(
                                    encode_utf8(full[l - 1].address@),
                                    encode_utf8(full[x].address@),
                                ));
                            }
                        }
                    }
                }
            },
            None => {},
        }
        r
    }

    /// The contract account at `contract`.
    pub fn query_contract(&self, contract: &String) -> (r: Result<Account, StateError>)
        ensures
            self.contract_code_id(contract@) is Some ==> r == Ok::<Account, StateError>(
                self.account_of(contract@).unwrap(),
            ),
            self.contract_code_id(contract@) is None ==> r == Err::<Account, StateError>(
                StateError::ContractNotFound { address: *contract },
            ),
    {
        match self.find_account(contract) {
            Some(i) => match &self.accounts[i].1 {
                Account::Contract { .. } => Ok(self.accounts[i].1.copy()),
                Account::Base { .. } => Err(StateError::contract_not_found(contract)),
            },
            None => Err(StateError::contract_not_found(contract)),
        }
    }

    /// Code id of the contract at `contract`.
    fn find_contract(&self, contract: &String) -> (r: Result<u64, StateError>)
        requires
            self.wf(),
        ensures
            match self.contract_code_id(contract@) {
                Some(id) => r == Ok::<u64, StateError>(id) && 1 <= id <= self.codes@.len(),
                None => r == Err::<u64, StateError>(
                    StateError::ContractNotFound { address: *contract },
                ),
            },
    {
        match self.find_account(contract) {
            Some(i) => match &self.accounts[i].1 {
                Account::Contract { code_id, .. } => Ok(*code_id),
                Account::Base { .. } => Err(StateError::contract_not_found(contract)),
            },
            None => Err(StateError::contract_not_found(contract)),
        }
    }

    /// The value under `key` in the store of the contract at `contract`.
    pub fn query_wasm_raw(&self, contract: &String, key: &[u8]) -> (r: Result<
        WasmRawResponse,
        StateError,
    >)
        requires
            self.wf(),
        ensures
            self.contract_code_id(contract@) is None ==> r == Err::<WasmRawResponse, StateError>(
                StateError::ContractNotFound { address: *contract },
            ),
            self.contract_code_id(contract@) is Some ==> (r matches Ok(resp) && op_view(&resp.value)
                == self.value_at(contract@, key@)),
    {
        match self.find_contract(contract) {
            Ok(_) => Ok(WasmRawResponse { value: self.contract_get(contract, key) }),
            Err(e) => Err(e),
        }
    }

    /// The committed keys of the store of the contract at `contract` in range that hold a value,
    /// in ascending order, each with its value.
    pub fn contract_scan(&self, contract: &String, start: &[u8], end: Option<&[u8]>) -> (r: Vec<
        (Vec<u8>, Vec<u8>),
    >)
        ensures
            ascending(r@),
            forall|i: int|
                0 <= i < r@.len() ==> in_range((#[trigger] r@[i]).0@, start@, op_view_ref(end))
                    && self.value_at(contract@, r@[i].0@) == Some(r@[i].1@),
            forall|k: Seq<u8>|
                in_range(k, start@, op_view_ref(end)) && self.value_at(contract@, k) is Some
                    ==> listed(r@, k),
    {
        let sub = Substore::new(contract.as_str().as_bytes());
        sub.scan(&self.store, start, end)
    }

    /// The value under `key` in the store of the contract at `contract`, read as that contract
    /// reads it.
    pub fn contract_get(&self, contract: &String, key: &[u8]) -> (r: Option<Vec<u8>>)
        ensures
            op_view(&r) == self.value_at(contract@, key@),
    {
        let k = crate::cache::namespaced_key(contract.as_str().as_bytes(), key);
        self.store.get(k.as_slice())
    }

    /// Starts an `Instantiate` message: checks it and returns the call for the VM to run.
    pub fn begin_instantiate(
        &self,
        code_id: u64,
        funds: Vec<Coin>,
        label: String,
        admin: Option<String>,
    ) -> (r: Result<ContractCall, StateError>)
        requires
            self.wf(),
        ensures
            reserved_label(label@) ==> r == Err::<ContractCall, StateError>(StateError::IllegalLabel),
            !reserved_label(label@) && self.code_of(code_id) is None ==> r == Err::<
                ContractCall,
                StateError,
            >(StateError::CodeNotFound { code_id }),
            !reserved_label(label@) && self.code_of(code_id) is Some ==> (r matches Ok(call) && {
                &&& call.wf()
                &&& call.fresh()
                &&& call.address@ == label_address(label@)
                &&& Some(call.code@) == self.code_of(code_id)
                &&& call.kind == (CallKind::Instantiate { code_id, label, admin })
                &&& call.funds == funds
            }),
    {
        if is_reserved_label(label.as_str()) {
            return Err(StateError::IllegalLabel);
        }
        let code = match self.query_code(code_id).wasm_byte_code {
            Some(w) => w,
            None => {
                return Err(StateError::code_not_found(code_id));
            },
        };
        let address = derive_from_label(label.as_str());
        Ok(ContractCall::new(address, code, CallKind::Instantiate { code_id, label, admin }, funds))
    }

    /// Starts an `Execute` message: checks it and returns the call for the VM to run.
    pub fn begin_execute(&self, contract: &String, funds: Vec<Coin>) -> (r: Result<
        ContractCall,
        StateError,
    >)
        requires
            self.wf(),
        ensures
            self.contract_code_id(contract@) is None ==> r == Err::<ContractCall, StateError>(
                StateError::ContractNotFound { address: *contract },
            ),
            self.contract_code_id(contract@) is Some ==> (r matches Ok(call) && {
                &&& call.wf()
                &&& call.fresh()
                &&& call.address == *contract
                &&& Some(call.code@) == self.code_of(self.contract_code_id(contract@).unwrap())
                &&& call.kind == CallKind::Execute
                &&& call.funds == funds
            }),
    {
        let code_id = match self.find_contract(contract) {
            Ok(id) => id,
            Err(e) => {
                return Err(e);
            },
        };
        let code = match self.query_code(code_id).wasm_byte_code {
            Some(w) => w,
            None => {
                return Err(StateError::code_not_found(code_id));
            },
        };
        Ok(ContractCall::new(contract.clone(), code, CallKind::Execute, funds))
    }

    /// Starts the bank's transfer of `funds` from `sender` to `to`: the call of the contract
    /// labelled `bank` for the VM to run.
    pub fn begin_transfer(&self, sender: &String, to: &String, funds: Vec<Coin>) -> (r: Result<
        ContractCall,
        StateError,
    >)
        requires
            self.wf(),
            funds@.len() > 0,
        ensures
            self.contract_code_id(label_address("bank"@)) is None ==> (r matches Err(e) && e matches StateError::ContractNotFound { address }
                && address@ == label_address("bank"@)),
            self.contract_code_id(label_address("bank"@)) is Some ==> (r matches Ok(call) && {
                &&& call.wf()
                &&& call.fresh()
                &&& call.address@ == label_address("bank"@)
                &&& Some(call.code@) == self.code_of(
                    self.contract_code_id(label_address("bank"@)).unwrap(),
                )
                &&& call.kind == (CallKind::Transfer { from: *sender, to: *to, funds })
                &&& call.funds@.len() == 0
            }),
    {
        let bank = derive_from_label("bank");
        let code_id = match self.find_contract(&bank) {
            Ok(id) => id,
            Err(e) => {
                return Err(e);
            },
        };
        let code = match self.query_code(code_id).wasm_byte_code {
            Some(w) => w,
            None => {
                return Err(StateError::code_not_found(code_id));
            },
        };
        let kind = CallKind::Transfer { from: sender.clone(), to: to.clone(), funds };
        Ok(ContractCall::new(bank, code, kind, Vec::new()))
    }

    /// The code of the contract at `contract`, for a smart query to run.
    pub fn contract_code(&self, contract: &String) -> (r: Result<Vec<u8>, StateError>)
        requires
            self.wf(),
        ensures
            self.contract_code_id(contract@) is None ==> r == Err::<Vec<u8>, StateError>(
                StateError::ContractNotFound { address: *contract },
            ),
            self.contract_code_id(contract@) is Some ==> (r matches Ok(code) && Some(code@)
                == self.code_of(self.contract_code_id(contract@).unwrap())),
    {
        let code_id = match self.find_contract(contract) {
            Ok(id) => id,
            Err(e) => {
                return Err(e);
            },
        };
        match self.query_code(code_id).wasm_byte_code {
            Some(w) => Ok(w),
            None => Err(StateError::code_not_found(code_id)),
        }
    }

    /// The answer to a smart query, from what the VM returned: `Err(message)` where the VM
    /// failed, else the contract's answer or error text.
    pub fn query_wasm_smart(&self, outcome: Result<Result<Vec<u8>, String>, String>) -> (r:
        Result<WasmSmartResponse, StateError>)
        ensures
            outcome matches Err(e) ==> r == Err::<WasmSmartResponse, StateError>(StateError::Vm(e)),
            outcome matches Ok(res) ==> r == Ok::<WasmSmartResponse, StateError>(
                WasmSmartResponse { result: res },
            ),
    {
        match outcome {
            Ok(result) => Ok(WasmSmartResponse { result }),
            Err(e) => Err(StateError::Vm(e)),
        }
    }

    /// Finishes a contract call from what the VM returned: `Err(message)` where the VM itself
    /// failed. On success the contract's writes are applied and its events returned; on any
    /// failure the state is left as it was.
    pub fn finish_call(
        &mut self,
        sender: &str,
        call: ContractCall,
        outcome: Result<ContractResult, String>,
    ) -> (r: Result<Vec<Event>, StateError>)
        requires
            old(self).wf(),
            call.wf(),
            !(call.kind is Transfer),
            call.funds@.len() > 0 ==> call.transfer is Some,
        ensures
            final(self).wf(),
            r is Err ==> *final(self) == *old(self),
            outcome matches Err(e) ==> r == Err::<Vec<Event>, StateError>(StateError::Vm(e)),
            outcome matches Ok(ContractResult::Failure(e)) ==> r == Err::<Vec<Event>, StateError>(
                StateError::Contract(e),
            ),
            outcome matches Ok(ContractResult::Success(resp)) ==> match call_refusal(
                *old(self),
                call,
                resp,
            ) {
                Some(e) => r == Err::<Vec<Event>, StateError>(e),
                None => r matches Ok(events) && events_view(events@) == call_events(
                    call,
                    sender@,
                    resp,
                ) && call_committed(*old(self), *final(self), call),
            },
    {
        let ghost call0 = call;
        let ContractCall { address, kind, sub, transfer, .. } = call;
        let resp = match outcome {
            Err(e) => {
                return Err(StateError::Vm(e));
            },
            Ok(ContractResult::Failure(e)) => {
                return Err(StateError::Contract(e));
            },
            Ok(ContractResult::Success(resp)) => resp,
        };
        let ghost resp0 = resp;
        if resp.submessages > 0 {
            return Err(StateError::SubmessagesUnsupported);
        }
        let Response { attributes, events, .. } = resp;
        let mut attributes = attributes;
        let ghost attrs0 = attributes@;
        let (fund_events, ty, mut attrs) = match kind {
            CallKind::Instantiate { code_id, label, admin } => {
                if code_id < 1 || code_id > self.code_count() {
                    return Err(StateError::code_not_found(code_id));
                }
                if let Some(_) = self.find_account(&address) {
                    return Err(StateError::AccountFound { address });
                }
                let ghost s = accounts_view(self.accounts@);
                let account = Account::Contract { code_id, label, admin };
                let ghost acc = account;
                let fund_events = self.apply_writes(sub, transfer);
                self.accounts.push((address.clone(), account));
                let n = self.accounts.len();
                assert(self.contract_count < n);
                self.contract_count = self.contract_count + 1;
                proof {
                    assert(accounts_view(self.accounts@) =~= s.push((address@, acc)));
                    assert forall|a: Seq<char>|
                        #[trigger] self.account_of(a) == if a == address@ {
                            Some(acc)
                        } else {
                            old(self).account_of(a)
                        } by {
                        lemma_last_match_push(s, (address@, acc), a);
                    }
                    assert forall|j: int|
                        0 <= j < self.accounts@.len() implies match #[trigger] self.accounts@[j].1 {
                        Account::Contract { code_id, .. } => 1 <= code_id <= self.codes@.len(),
                        _ => true,
                    } by {
                        if j < old(self).accounts@.len() {
                            assert(old(self).accounts@[j] == self.accounts@[j]);
                        }
                    }
                }
                let ghost addr = address@;
                let v = vec![
                    Attribute { key: "sender".to_owned(), value: sender.to_owned() },
                    Attribute { key: "code_id".to_owned(), value: decimal(code_id) },
                    Attribute { key: "contract_address".to_owned(), value: address },
                ];
                assert(attributes_view(v@) =~= seq![
                    ("sender"@, sender@),
                    ("code_id"@, decimal_of(code_id as nat)),
                    ("contract_address"@, addr),
                ]);
                (fund_events, "instantiate_contract".to_owned(), v)
            },
            CallKind::Execute => {
                match self.find_contract(&address) {
                    Ok(_) => {},
                    Err(e) => {
                        return Err(e);
                    },
                }
                let fund_events = self.apply_writes(sub, transfer);
                let ghost addr = address@;
                let v = vec![
                    Attribute { key: "sender".to_owned(), value: sender.to_owned() },
                    Attribute { key: "contract_address".to_owned(), value: address },
                ];
                assert(attributes_view(v@) =~= seq![("sender"@, sender@), ("contract_address"@, addr)]);
                (fund_events, "execute_contract".to_owned(), v)
            },
            CallKind::Transfer { .. } => {
                assert(false);
                return Err(StateError::SubmessagesUnsupported);
            },
        };
        let ghost head = attrs@;
        attrs.append(&mut attributes);
        let event = Event { ty, attributes: attrs };
        proof {
            assert(attributes_view(attrs@) =~= attributes_view(head) + attributes_view(attrs0));
        }
        assert(event@ == call_events(call0, sender@, resp0)[call0.fund_events().len() as int]);
        let ghost ev = event;
        let ghost rest = events@;
        let mut tail = prepend(event, events);
        let ghost fund = fund_events@;
        let mut r = fund_events;
        r.append(&mut tail);
        proof {
            assert(events_view(fund) =~= call0.fund_events());
            assert(events_view(r@) =~= events_view(fund) + seq![ev@] + events_view(rest));
            assert(events_view(r@) =~= call_events(call0, sender@, resp0));
            assert(call_refusal(*old(self), call0, resp0) is None);
            assert(call_committed(*old(self), *self, call0));
        }
        Ok(r)
    }

    /// Applies the bank's writes, if a transfer happened, then the contract's; returns the
    /// transfer's events.
    fn apply_writes(&mut self, sub: Substore, transfer: Option<FundTransfer>) -> (r: Vec<Event>)
        requires
            sub.wf(),
            transfer matches Some(t) ==> t.sub.wf(),
        ensures
            forall|k: Seq<u8>|
                #![trigger final(self).store.value_of(k)]
                final(self).store.value_of(k) == match sub.cache().pending_op(k) {
                    Some(o) => o,
                    None => match transfer {
                        Some(t) => t.sub.cache().value_over(&old(self).store, k),
                        None => old(self).store.value_of(k),
                    },
                },
            r@ == match transfer {
                Some(t) => t.events@,
                None => Seq::<Event>::empty(),
            },
            final(self).height == old(self).height,
            final(self).chain_id == old(self).chain_id,
            final(self).codes == old(self).codes,
            final(self).contract_count == old(self).contract_count,
            final(self).accounts == old(self).accounts,
    {
        let events = match transfer {
            Some(t) => {
                let FundTransfer { sub: bank_sub, events, .. } = t;
                bank_sub.flush(&mut self.store);
                events
            },
            None => Vec::new(),
        };
        let ghost mid = self.store;
        sub.flush(&mut self.store);
        assert forall|k: Seq<u8>| #[trigger] self.store.value_of(k) == sub.cache().value_over(&mid, k) by {}
        events
    }

    /// Migration is not supported: every `Migrate` message fails.
    pub fn migrate_contract(&self, sender: &str, contract: &String, code_id: u64, msg: &[u8]) -> (r:
        Result<Vec<Event>, StateError>)
        ensures
            r == Err::<Vec<Event>, StateError>(StateError::MigrationUnsupported),
    {
        Err(StateError::MigrationUnsupported)
    }

    /// Records the user account at `address` with its key and sequence, as a transaction's
    /// authentication leaves it; fails where a contract is at the address.
    pub fn set_base_account(&mut self, address: String, pubkey: String, sequence: u64) -> (r:
        Result<(), StateError>)
        requires
            old(self).wf(),
        ensures
            final(self).wf(),
            old(self).contract_code_id(address@) is Some ==> r == Err::<(), StateError>(
                StateError::AccountFound { address },
            ) && *final(self) == *old(self),
            old(self).contract_code_id(address@) is None ==> r is Ok && forall|a: Seq<char>|
                #[trigger] final(self).account_of(a) == if a == address@ {
                    Some(Account::Base { pubkey, sequence })
                } else {
                    old(self).account_of(a)
                },
            final(self).height == old(self).height,
            final(self).chain_id == old(self).chain_id,
            final(self).codes == old(self).codes,
            final(self).contract_count == old(self).contract_count,
            final(self).store == old(self).store,
    {
        let ghost s = accounts_view(self.accounts@);
        let ghost addr = address@;
        let account = Account::Base { pubkey, sequence };
        let ghost acc = account;
        match self.find_account(&address) {
            Some(i) => {
                if let Account::Contract { .. } = &self.accounts[i].1 {
                    return Err(StateError::AccountFound { address });
                }
                assert forall|j: int| i < j < s.len() implies s[j].0 != addr by {
                    assert(s[j].0 == self.accounts@[j].0@);
                }
                self.accounts.set(i, (address, account));
                proof {
                    assert(accounts_view(self.accounts@) =~= s.update(i as int, (addr, acc)));
                    assert forall|a: Seq<char>| #[trigger]
                        self.account_of(a) == if a == addr {
                            Some(acc)
                        } else {
                            old(self).account_of(a)
                        } by {
                        lemma_last_match_update(s, i as int, (addr, acc), a);
                    }
                }
            },
            None => {
                self.accounts.push((address, account));
                proof {
                    assert(accounts_view(self.accounts@) =~= s.push((addr, acc)));
                    assert forall|a: Seq<char>| #[trigger]
                        self.account_of(a) == if a == addr {
                            Some(acc)
                        } else {
                            old(self).account_of(a)
                        } by {
                        lemma_last_match_push(s, (addr, acc), a);
                    }
                }
            },
        }
        assert forall|j: int|
            0 <= j < self.accounts@.len() implies match #[trigger] self.accounts@[j].1 {
            Account::Contract { code_id, .. } => 1 <= code_id <= self.codes@.len(),
            _ => true,
        } by {
            if j < old(self).accounts@.len() {
                assert(old(self).accounts@[j].1 == self.accounts@[j].1 || self.accounts@[j].1 == acc);
            }
        }
        Ok(())
    }
}

/// What a contract call is for.
#[derive(Debug, Clone, PartialEq, Eq)]
pub enum CallKind {
    Instantiate { code_id: u64, label: String, admin: Option<String> },
    Execute,
    /// The bank's move of `funds` from `from` to `to`, ahead of the message that attached them.
    Transfer { from: String, to: String, funds: Vec<Coin> },
}

/// A bank transfer that succeeded: the bank's writes, held back, and the events it returned.
pub struct FundTransfer {
    pub bank: String,
    pub sub: Substore,
    pub events: Vec<Event>,
}

/// A contract call in progress: the contract's address and code, and the writes it has made
/// so far, held back from the state until the call is finished.
pub struct ContractCall {
    pub address: String,
    pub code: Vec<u8>,
    pub kind: CallKind,
    /// Coins attached to the message, which the bank moves before the contract runs.
    pub funds: Vec<Coin>,
    /// The contract's writes so far.
    pub sub: Substore,
    /// The bank transfer of `funds`, once it succeeded.
    pub transfer: Option<FundTransfer>,
}

impl ContractCall {
    pub open spec fn wf(&self) -> bool {
        &&& self.sub.wf()
        &&& self.sub.addr() == encode_utf8(self.address@)
        &&& match self.transfer {
            Some(t) => t.sub.wf() && t.sub.addr() == encode_utf8(t.bank@),
            None => true,
        }
    }

    /// No write has been made yet and no transfer has happened.
    pub open spec fn fresh(&self) -> bool {
        &&& forall|k: Seq<u8>| #[trigger] self.sub.cache().pending_op(k) == None::<WriteOp>
        &&& self.transfer is None
    }

    /// The events of the bank transfer, if one happened.
    pub open spec fn fund_events(&self) -> Seq<EventView> {
        match self.transfer {
            Some(t) => events_view(t.events@),
            None => Seq::empty(),
        }
    }

    /// The value under the store key `k` once the call is applied to `base`: the contract's
    /// write, else the bank's, else what `base` holds.
    pub open spec fn store_after(&self, base: &KvLog, k: Seq<u8>) -> Option<Seq<u8>> {
        match self.sub.cache().pending_op(k) {
            Some(o) => o,
            None => match self.transfer {
                Some(t) => t.sub.cache().value_over(base, k),
                None => base.value_of(k),
            },
        }
    }

    /// What the contract reads under `key`, over `state`.
    pub open spec fn value(&self, state: &State, key: Seq<u8>) -> Option<Seq<u8>> {
        self.sub.value(&state.store, key)
    }

    fn new(address: String, code: Vec<u8>, kind: CallKind, funds: Vec<Coin>) -> (r: ContractCall)
        ensures
            r.wf(),
            r.fresh(),
            r.address == address,
            r.code == code,
            r.kind == kind,
            r.funds == funds,
    {
        let sub = Substore::new(address.as_str().as_bytes());
        ContractCall { address, code, kind, funds, sub, transfer: None }
    }

    /// Records the bank transfer of this call's funds from what the VM returned for `bank`:
    /// `Err(message)` where the VM itself failed. On success the bank's writes and events ride
    /// with this call, to be applied with it or dropped with it.
    pub fn finish_transfer(&mut self, bank: ContractCall, outcome: Result<ContractResult, String>) -> (r:
        Result<(), StateError>)
        requires
            old(self).wf(),
            old(self).transfer is None,
            bank.wf(),
            bank.kind is Transfer,
        ensures
            final(self).wf(),
            r is Err ==> *final(self) == *old(self),
            outcome matches Err(e) ==> r == Err::<(), StateError>(StateError::Vm(e)),
            outcome matches Ok(ContractResult::Failure(e)) ==> r == Err::<(), StateError>(
                StateError::FundTransferFailed(e),
            ),
            outcome matches Ok(ContractResult::Success(resp)) ==> r is Ok && *final(self) == (
            ContractCall {
                transfer: Some(FundTransfer { bank: bank.address, sub: bank.sub, events: resp.events }),
                ..*old(self)
            }),
    {
        match outcome {
            Err(e) => Err(StateError::Vm(e)),
            Ok(ContractResult::Failure(e)) => Err(StateError::FundTransferFailed(e)),
            Ok(ContractResult::Success(resp)) => {
                let ContractCall { address, sub, .. } = bank;
                self.transfer = Some(FundTransfer { bank: address, sub, events: resp.events });
                Ok(())
            },
        }
    }

    /// A read by the contract of its key `key`.
    pub fn read(&self, state: &State, key: &[u8]) -> (r: Option<Vec<u8>>)
        ensures
            op_view(&r) == self.value(state, key@),
    {
        self.sub.read(&state.store, key)
    }

    /// The contract's keys in range that hold a value, in ascending order, each with its value.
    pub fn scan(&self, state: &State, start: &[u8], end: Option<&[u8]>) -> (r: Vec<(Vec<u8>, Vec<u8>)>)
        ensures
            ascending(r@),
            forall|i: int|
                0 <= i < r@.len() ==> in_range((#[trigger] r@[i]).0@, start@, op_view_ref(end))
                    && self.value(state, r@[i].0@) == Some(r@[i].1@),
            forall|k: Seq<u8>|
                in_range(k, start@, op_view_ref(end)) && self.value(state, k) is Some ==> listed(
                    r@,
                    k,
                ),
    {
        self.sub.scan(&state.store, start, end)
    }

    /// A write by the contract of `value` under its key `key`.
    pub fn write(&mut self, key: &[u8], value: Vec<u8>)
        requires
            old(self).wf(),
        ensures
            final(self).wf(),
            final(self).address == old(self).address,
            final(self).code == old(self).code,
            final(self).kind == old(self).kind,
            forall|s: &State, k2: Seq<u8>|
                #![trigger final(self).value(s, k2)]
                final(self).value(s, k2) == if k2 == key@ {
                    Some(value@)
                } else {
                    old(self).value(s, k2)
                },
    {
        self.sub.write(key, value);
        proof {
            assert forall|s: &State, k2: Seq<u8>|
                #![trigger self.value(s, k2)]
                self.value(s, k2) == if k2 == key@ {
                    Some(value@)
                } else {
                    old(self).value(s, k2)
                } by {
                assert(self.sub.value(&s.store, k2) == self.value(s, k2));
            }
        }
    }

    /// A removal by the contract of its key `key`.
    pub fn remove(&mut self, key: &[u8])
        requires
            old(self).wf(),
        ensures
            final(self).wf(),
            final(self).address == old(self).address,
            final(self).code == old(self).code,
            final(self).kind == old(self).kind,
            forall|s: &State, k2: Seq<u8>|
                #![trigger final(self).value(s, k2)]
                final(self).value(s, k2) == if k2 == key@ {
                    None
                } else {
                    old(self).value(s, k2)
                },
    {
        self.sub.remove(key);
        proof {
            assert forall|s: &State, k2: Seq<u8>|
                #![trigger self.value(s, k2)]
                self.value(s, k2) == if k2 == key@ {
                    None
                } else {
                    old(self).value(s, k2)
                } by {
                assert(self.sub.value(&s.store, k2) == self.value(s, k2));
            }
        }
    }
}

/// Codes stored one after another on a chain that had none get the ids `1..=n` in order, and the
/// code with id `i + 1` holds the bytes of the `i`-th one.
pub proof fn lemma_code_ids_in_order(states: Seq<State>, wasms: Seq<Seq<u8>>)
    requires
        states.len() == wasms.len() + 1,
        states[0].codes@.len() == 0,
        forall|i: int| 0 <= i < wasms.len() ==> stored_code(states[i], #[trigger] states[i + 1], wasms[i]),
    ensures
        forall|i: int| 0 <= i <= wasms.len() ==> (#[trigger] states[i]).codes@.len() == i,
        forall|i: int|
            0 <= i < wasms.len() ==> states.last().code_of((i + 1) as u64) == Some(#[trigger] wasms[i]),
    decreases wasms.len(),
{
    if wasms.len() > 0 {
        let n = wasms.len() - 1;
        lemma_code_ids_in_order(states.drop_last(), wasms.drop_last());
        assert(stored_code(states[n], states[n + 1], wasms[n]));
        assert(states.drop_last()[n] == states[n]);
        assert forall|i: int| 0 <= i <= wasms.len() implies (#[trigger] states[i]).codes@.len() == i by {
            if i < wasms.len() {
                assert(states.drop_last()[i] == states[i]);
            }
        }
        assert forall|i: int|
            0 <= i < wasms.len() implies states.last().code_of((i + 1) as u64) == Some(
            #[trigger] wasms[i],
        ) by {
            if i < n {
                assert(wasms.drop_last()[i] == wasms[i]);
                assert(states.drop_last().last() == states[n]);
                assert(states[n].codes@[i] == states[n + 1].codes@.subrange(0, n)[i]);
            }
        }
    }
}

/// Once a contract is instantiated under a label, instantiating again under the same label is
/// refused with `AccountFound`, whatever the second contract answers.
pub proof fn lemma_label_taken(
    before: State,
    after: State,
    first: ContractCall,
    second: ContractCall,
    label: Seq<char>,
    resp: Response,
)
    requires
        call_committed(before, after, first),
        first.kind is Instantiate,
        second.kind is Instantiate,
        first.address@ == label_address(label),
        second.address@ == label_address(label),
        resp.submessages == 0,
        after.code_of(second.kind->Instantiate_code_id) is Some,
    ensures
        call_refusal(after, second, resp) == Some(
            StateError::AccountFound { address: second.address },
        ),
{
    assert(after.account_of(first.address@) is Some);
}

/// What a contract wrote during a call that succeeded is what a raw query of its store reads.
pub proof fn lemma_committed_writes_readable(
    before: State,
    after: State,
    call: ContractCall,
    key: Seq<u8>,
    value: Seq<u8>,
)
    requires
        call_committed(before, after, call),
        call.sub.cache().pending_op(namespaced(encode_utf8(call.address@), key)) == Some(
            Some(value),
        ),
    ensures
        after.value_at(call.address@, key) == Some(value),
{
    assert(after.store.value_of(namespaced(encode_utf8(call.address@), key)) == call.store_after(
        &before.store,
        namespaced(encode_utf8(call.address@), key),
    ));
}

/// A call leaves the store of every contract other than its own and the bank's as it was.
pub proof fn lemma_other_stores_untouched(
    before: State,
    after: State,
    call: ContractCall,
    other: Seq<char>,
    key: Seq<u8>,
)
    requires
        call_committed(before, after, call),
        call.wf(),
        other != call.address@,
        call.transfer matches Some(t) ==> other != t.bank@ && encode_utf8(t.bank@).len()
            <= u64::MAX,
        encode_utf8(other).len() <= u64::MAX,
        encode_utf8(call.address@).len() <= u64::MAX,
    ensures
        after.value_at(other, key) == before.value_at(other, key),
{
    let k = namespaced(encode_utf8(other), key);
    encode_utf8_decode_utf8(other);
    encode_utf8_decode_utf8(call.address@);
    lemma_namespaces_disjoint(encode_utf8(other), encode_utf8(call.address@), key);
    assert(call.sub.cache().pending_op(k) is None);
    if let Some(t) = call.transfer {
        encode_utf8_decode_utf8(t.bank@);
        lemma_namespaces_disjoint(encode_utf8(other), encode_utf8(t.bank@), key);
        assert(t.sub.cache().pending_op(k) is None);
    }
    assert(after.store.value_of(k) == call.store_after(&before.store, k));
}

} // verus!
