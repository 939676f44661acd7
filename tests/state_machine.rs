use bech32::ToBase32;
use sha2::Digest;

use cw_state_machine::address::{derive_from_label, is_reserved_label};
use cw_state_machine::msg::{
    Account, Attribute, Coin, ContractResult, Event, Response, WasmSmartResponse,
};
use cw_state_machine::state::{prepend, CallKind, State, StateError};

const DEPLOYER: &str = "cw1deploy";

fn sha256(data: &[u8]) -> Vec<u8> {
    sha2::Sha256::digest(data).to_vec()
}

fn label_addr(label: &str) -> String {
    let mut data = b"module".to_vec();
    data.extend_from_slice(label.as_bytes());
    let hash = sha256(&data);
    bech32::encode("cw", (&hash[..20]).to_base32(), bech32::Variant::Bech32).unwrap()
}

fn attr(key: &str, value: &str) -> Attribute {
    Attribute { key: key.to_string(), value: value.to_string() }
}

fn empty_response() -> Response {
    Response { attributes: vec![], events: vec![], submessages: 0, data: None }
}

fn ok(resp: Response) -> Result<ContractResult, String> {
    Ok(ContractResult::Success(resp))
}

/// A chain with one stored code and, where `label` is given, one contract instantiated from it.
fn chain_with_contract(label: &str) -> (State, String) {
    let mut state = State::new("test-chain".to_string());
    state.store_code(DEPLOYER, b"wasm".to_vec());
    let call = state.begin_instantiate(1, vec![], label.to_string(), None).unwrap();
    let addr = call.address.clone();
    state.finish_call(DEPLOYER, call, ok(empty_response())).unwrap();
    (state, addr)
}

#[test]
fn genesis_store_code() {
    let mut state = State::new("test-chain".to_string());
    let wasm = b"\0asm-bytes".to_vec();
    let event = state.store_code(DEPLOYER, wasm.clone());
    assert_eq!(state.query_info().code_count, 1);
    assert_eq!(event.ty, "store_code");
    assert_eq!(
        event.attributes,
        vec![
            attr("sender", DEPLOYER),
            attr("code_id", "1"),
            attr("code_hash", &hex::encode(sha256(&wasm))),
        ]
    );
    assert_eq!(state.query_code(1).wasm_byte_code, Some(wasm));
    let (height, app_hash) = state.info();
    assert_eq!(height, 0);
    assert_eq!(app_hash, sha256(&0u64.to_be_bytes()));
}

#[test]
fn store_code_ids_are_sequential() {
    let mut state = State::new("c".to_string());
    let codes: Vec<Vec<u8>> = vec![b"a".to_vec(), b"bb".to_vec(), b"ccc".to_vec()];
    for (i, code) in codes.iter().enumerate() {
        let event = state.store_code(DEPLOYER, code.clone());
        assert_eq!(event.attributes[1], attr("code_id", &(i + 1).to_string()));
    }
    for (i, code) in codes.iter().enumerate() {
        let resp = state.query_code(i as u64 + 1);
        assert_eq!(resp.code_id, i as u64 + 1);
        assert_eq!(resp.wasm_byte_code.as_ref(), Some(code));
    }
    assert_eq!(state.query_code(0).wasm_byte_code, None);
    assert_eq!(state.query_code(4).wasm_byte_code, None);
}

#[test]
fn instantiate_bank_then_again() {
    let mut state = State::new("test-chain".to_string());
    state.store_code(DEPLOYER, b"wasm".to_vec());
    let call = state.begin_instantiate(1, vec![], "bank".to_string(), None).unwrap();
    assert_eq!(call.address, label_addr("bank"));
    assert_eq!(call.kind, CallKind::Instantiate { code_id: 1, label: "bank".to_string(), admin: None });
    let events = state.finish_call(DEPLOYER, call, ok(empty_response())).unwrap();
    let addr = label_addr("bank");
    assert_eq!(
        events,
        vec![Event {
            ty: "instantiate_contract".to_string(),
            attributes: vec![
                attr("sender", DEPLOYER),
                attr("code_id", "1"),
                attr("contract_address", &addr),
            ],
        }]
    );
    assert_eq!(state.query_info().contract_count, 1);
    assert_eq!(
        state.query_account(&addr).account,
        Some(Account::Contract { code_id: 1, label: "bank".to_string(), admin: None })
    );

    let before = state.query_info();
    let again = state.begin_instantiate(1, vec![], "bank".to_string(), None).unwrap();
    assert_eq!(
        state.finish_call(DEPLOYER, again, ok(empty_response())),
        Err(StateError::AccountFound { address: addr })
    );
    assert_eq!(state.query_info(), before);
}

#[test]
fn reserved_label_is_illegal() {
    let mut state = State::new("c".to_string());
    state.store_code(DEPLOYER, b"wasm".to_vec());
    let before = state.query_info();
    assert_eq!(
        state.begin_instantiate(1, vec![], "cw1hack".to_string(), None).err(),
        Some(StateError::IllegalLabel)
    );
    assert_eq!(state.query_info(), before);
    assert!(state.accounts.is_empty());
    assert!(is_reserved_label("cw1"));
    assert!(!is_reserved_label("cw"));
    assert!(!is_reserved_label("cw2x"));
}

#[test]
fn trapped_execute_keeps_store() {
    let mut state = State::new("c".to_string());
    state.store_code(DEPLOYER, b"wasm".to_vec());
    let mut call = state.begin_instantiate(1, vec![], "counter".to_string(), None).unwrap();
    call.write(b"count", b"1".to_vec());
    let addr = call.address.clone();
    state.finish_call(DEPLOYER, call, ok(empty_response())).unwrap();
    assert_eq!(state.query_wasm_raw(&addr, b"count").unwrap().value, Some(b"1".to_vec()));

    let mut exec = state.begin_execute(&addr, vec![]).unwrap();
    exec.write(b"count", b"2".to_vec());
    exec.write(b"other", b"x".to_vec());
    assert_eq!(exec.read(&state, b"count"), Some(b"2".to_vec()));
    assert_eq!(
        state.finish_call("cw1user", exec, Err("wasm trap: unreachable".to_string())),
        Err(StateError::Vm("wasm trap: unreachable".to_string()))
    );
    assert_eq!(state.query_wasm_raw(&addr, b"count").unwrap().value, Some(b"1".to_vec()));
    assert_eq!(state.query_wasm_raw(&addr, b"other").unwrap().value, None);
}

#[test]
fn contract_error_keeps_store() {
    let (mut state, addr) = chain_with_contract("counter");
    let mut exec = state.begin_execute(&addr, vec![]).unwrap();
    exec.write(b"k", b"v".to_vec());
    assert_eq!(
        state.finish_call("cw1user", exec, Ok(ContractResult::Failure("bad input".to_string()))),
        Err(StateError::Contract("bad input".to_string()))
    );
    assert_eq!(state.contract_get(&addr, b"k"), None);
}

#[test]
fn execute_writes_are_readable() {
    let (mut state, addr) = chain_with_contract("counter");
    let mut exec = state.begin_execute(&addr, vec![]).unwrap();
    exec.write(b"k", b"v".to_vec());
    exec.write(b"gone", b"soon".to_vec());
    exec.remove(b"gone");
    let resp = Response {
        attributes: vec![attr("action", "bump")],
        events: vec![Event { ty: "wasm-bump".to_string(), attributes: vec![attr("n", "1")] }],
        submessages: 0,
        data: None,
    };
    let events = state.finish_call("cw1user", exec, ok(resp)).unwrap();
    assert_eq!(
        events,
        vec![
            Event {
                ty: "execute_contract".to_string(),
                attributes: vec![
                    attr("sender", "cw1user"),
                    attr("contract_address", &addr),
                    attr("action", "bump"),
                ],
            },
            Event { ty: "wasm-bump".to_string(), attributes: vec![attr("n", "1")] },
        ]
    );
    assert_eq!(state.query_wasm_raw(&addr, b"k").unwrap().value, Some(b"v".to_vec()));
    assert_eq!(state.query_wasm_raw(&addr, b"gone").unwrap().value, None);
}

#[test]
fn stores_are_isolated() {
    let (mut state, a) = chain_with_contract("alpha");
    let call = state.begin_instantiate(1, vec![], "beta".to_string(), None).unwrap();
    let b = call.address.clone();
    state.finish_call(DEPLOYER, call, ok(empty_response())).unwrap();
    let mut exec = state.begin_execute(&b, vec![]).unwrap();
    exec.write(b"shared", b"b".to_vec());
    state.finish_call("cw1user", exec, ok(empty_response())).unwrap();
    let mut exec = state.begin_execute(&a, vec![]).unwrap();
    exec.write(b"shared", b"a".to_vec());
    state.finish_call("cw1user", exec, ok(empty_response())).unwrap();
    assert_eq!(state.contract_get(&a, b"shared"), Some(b"a".to_vec()));
    assert_eq!(state.contract_get(&b, b"shared"), Some(b"b".to_vec()));
}

#[test]
fn commit_twice() {
    let mut state = State::new("c".to_string());
    let (h1, hash1) = state.commit();
    let (h2, hash2) = state.commit();
    assert_eq!(h1, 1);
    assert_eq!(h2, 2);
    assert_ne!(hash1, hash2);
    assert_eq!(hash1, sha256(&1u64.to_be_bytes()));
    assert_eq!(state.info(), (2, hash2));
}

#[test]
fn migrate_is_unsupported() {
    let (state, addr) = chain_with_contract("m");
    let before = state.query_info();
    assert_eq!(
        state.migrate_contract(DEPLOYER, &addr, 1, b"{}"),
        Err(StateError::MigrationUnsupported)
    );
    assert_eq!(state.query_info(), before);
}

#[test]
fn reserved_label_wins_over_funds() {
    let state = State::new("c".to_string());
    let funds = vec![Coin { denom: "uatom".to_string(), amount: 5 }];
    assert_eq!(
        state.begin_instantiate(1, funds, "cw1hack".to_string(), None).err(),
        Some(StateError::IllegalLabel)
    );
}

#[test]
fn funds_move_through_the_bank() {
    let (mut state, bank) = chain_with_contract("bank");
    let call = state.begin_instantiate(1, vec![], "vault".to_string(), None).unwrap();
    let vault = call.address.clone();
    state.finish_call(DEPLOYER, call, ok(empty_response())).unwrap();

    let funds = vec![Coin { denom: "uatom".to_string(), amount: 5 }];
    let mut exec = state.begin_execute(&vault, funds.clone()).unwrap();
    let user = "cw1user".to_string();
    let mut transfer = state.begin_transfer(&user, &vault, funds.clone()).unwrap();
    assert_eq!(transfer.address, bank);
    assert_eq!(
        transfer.kind,
        CallKind::Transfer { from: user.clone(), to: vault.clone(), funds: funds.clone() }
    );
    transfer.write(b"balance/vault", b"5".to_vec());
    let bank_event = Event { ty: "transfer".to_string(), attributes: vec![attr("amount", "5uatom")] };
    let bank_resp = Response {
        attributes: vec![],
        events: vec![bank_event.clone()],
        submessages: 0,
        data: None,
    };
    exec.finish_transfer(transfer, ok(bank_resp)).unwrap();
    exec.write(b"seen", b"yes".to_vec());
    let events = state.finish_call(&user, exec, ok(empty_response())).unwrap();
    assert_eq!(events.len(), 2);
    assert_eq!(events[0], bank_event);
    assert_eq!(events[1].ty, "execute_contract");
    assert_eq!(state.contract_get(&bank, b"balance/vault"), Some(b"5".to_vec()));
    assert_eq!(state.contract_get(&vault, b"seen"), Some(b"yes".to_vec()));
}

#[test]
fn failed_call_drops_the_transfer() {
    let (mut state, bank) = chain_with_contract("bank");
    let funds = vec![Coin { denom: "uatom".to_string(), amount: 5 }];
    let user = "cw1user".to_string();
    let mut exec = state.begin_execute(&bank, vec![]).unwrap();
    exec.write(b"x", b"1".to_vec());
    state.finish_call(&user, exec, ok(empty_response())).unwrap();

    let mut exec = state.begin_execute(&bank, funds.clone()).unwrap();
    let mut transfer = state.begin_transfer(&user, &bank, funds.clone()).unwrap();
    transfer.write(b"balance", b"5".to_vec());
    exec.finish_transfer(transfer, ok(empty_response())).unwrap();
    assert_eq!(
        state.finish_call(&user, exec, Ok(ContractResult::Failure("no".to_string()))),
        Err(StateError::Contract("no".to_string()))
    );
    assert_eq!(state.contract_get(&bank, b"balance"), None);

    let mut exec = state.begin_execute(&bank, funds.clone()).unwrap();
    let transfer = state.begin_transfer(&user, &bank, funds.clone()).unwrap();
    assert_eq!(
        exec.finish_transfer(transfer, Ok(ContractResult::Failure("insufficient funds".to_string()))),
        Err(StateError::FundTransferFailed("insufficient funds".to_string()))
    );
    assert!(exec.transfer.is_none());
    let transfer = state.begin_transfer(&user, &bank, funds).unwrap();
    assert_eq!(
        exec.finish_transfer(transfer, Err("trap".to_string())),
        Err(StateError::Vm("trap".to_string()))
    );
}

#[test]
fn transfer_needs_a_bank() {
    let (state, addr) = chain_with_contract("notbank");
    let funds = vec![Coin { denom: "uatom".to_string(), amount: 5 }];
    assert_eq!(
        state.begin_transfer(&"cw1user".to_string(), &addr, funds).err(),
        Some(StateError::ContractNotFound { address: label_addr("bank") })
    );
}

#[test]
fn unknown_code_and_contract() {
    let state = State::new("c".to_string());
    assert_eq!(
        state.begin_instantiate(7, vec![], "x".to_string(), None).err(),
        Some(StateError::CodeNotFound { code_id: 7 })
    );
    let nowhere = "cw1nowhere".to_string();
    assert_eq!(
        state.begin_execute(&nowhere, vec![]).err(),
        Some(StateError::ContractNotFound { address: nowhere.clone() })
    );
    assert_eq!(
        state.query_wasm_raw(&nowhere, b"k").err(),
        Some(StateError::ContractNotFound { address: nowhere.clone() })
    );
    assert_eq!(state.query_contract(&nowhere), Err(StateError::contract_not_found(&nowhere)));
    assert_eq!(state.contract_code(&nowhere), Err(StateError::ContractNotFound { address: nowhere }));
    assert_eq!(StateError::code_not_found(3), StateError::CodeNotFound { code_id: 3 });
}

#[test]
fn submessages_are_refused() {
    let (mut state, addr) = chain_with_contract("s");
    let mut exec = state.begin_execute(&addr, vec![]).unwrap();
    exec.write(b"k", b"v".to_vec());
    let resp = Response { attributes: vec![], events: vec![], submessages: 1, data: None };
    assert_eq!(state.finish_call("cw1user", exec, ok(resp)), Err(StateError::SubmessagesUnsupported));
    assert_eq!(state.contract_get(&addr, b"k"), None);
}

#[test]
fn accounts_and_contracts() {
    let (mut state, addr) = chain_with_contract("acc");
    let user = "cw1user".to_string();
    assert_eq!(state.query_account(&user).account, None);
    state.set_base_account(user.clone(), "pk".to_string(), 3).unwrap();
    assert_eq!(
        state.query_account(&user).account,
        Some(Account::Base { pubkey: "pk".to_string(), sequence: 3 })
    );
    state.set_base_account(user.clone(), "pk".to_string(), 4).unwrap();
    assert_eq!(
        state.query_account(&user).account,
        Some(Account::Base { pubkey: "pk".to_string(), sequence: 4 })
    );
    assert_eq!(
        state.set_base_account(addr.clone(), "pk".to_string(), 0),
        Err(StateError::AccountFound { address: addr.clone() })
    );
    assert_eq!(
        state.query_contract(&addr),
        Ok(Account::Contract { code_id: 1, label: "acc".to_string(), admin: None })
    );
    assert_eq!(
        state.query_contract(&user),
        Err(StateError::ContractNotFound { address: user.clone() })
    );
    assert_eq!(state.contract_code(&addr), Ok(b"wasm".to_vec()));
    assert_eq!(state.query_account(&user).address, user);
}

#[test]
fn smart_query_answer() {
    let state = State::new("c".to_string());
    assert_eq!(
        state.query_wasm_smart(Ok(Ok(b"42".to_vec()))),
        Ok(WasmSmartResponse { result: Ok(b"42".to_vec()) })
    );
    assert_eq!(
        state.query_wasm_smart(Ok(Err("no".to_string()))),
        Ok(WasmSmartResponse { result: Err("no".to_string()) })
    );
    assert_eq!(state.query_wasm_smart(Err("trap".to_string())), Err(StateError::Vm("trap".to_string())));
}

#[test]
fn derived_addresses() {
    assert_eq!(derive_from_label("bank"), label_addr("bank"));
    assert_ne!(derive_from_label("bank"), derive_from_label("staking"));
    assert!(derive_from_label("bank").starts_with("cw1"));
}

#[test]
fn prepend_puts_event_first() {
    let a = Event { ty: "a".to_string(), attributes: vec![] };
    let b = Event { ty: "b".to_string(), attributes: vec![] };
    assert_eq!(prepend(a.clone(), vec![b.clone()]), vec![a, b]);
}

#[test]
fn info_response_fields() {
    let (mut state, _) = chain_with_contract("i");
    state.commit();
    let info = state.query_info();
    assert_eq!(info.chain_id, "test-chain");
    assert_eq!(info.height, 1);
    assert_eq!(info.code_count, 1);
    assert_eq!(info.contract_count, 1);
}

#[test]
fn codes_pagination() {
    let mut state = State::new("c".to_string());
    for code in [b"one".to_vec(), b"two".to_vec(), b"three".to_vec(), b"four".to_vec()] {
        state.store_code(DEPLOYER, code);
    }
    let ids = |v: Vec<cw_state_machine::msg::CodeResponse>| -> Vec<u64> {
        v.into_iter().map(|c| c.code_id).collect()
    };
    assert_eq!(ids(state.query_codes(None, None)), vec![1, 2, 3, 4]);
    assert_eq!(ids(state.query_codes(Some(1), Some(2))), vec![2, 3]);
    assert_eq!(ids(state.query_codes(Some(3), None)), vec![4]);
    assert_eq!(ids(state.query_codes(Some(9), None)), Vec::<u64>::new());
    assert_eq!(ids(state.query_codes(None, Some(0))), Vec::<u64>::new());
    assert_eq!(state.query_codes(Some(1), Some(1))[0].wasm_byte_code, Some(b"two".to_vec()));
}

#[test]
fn contract_scan_sees_pending_and_committed() {
    let (mut state, addr) = chain_with_contract("scan");
    let mut exec = state.begin_execute(&addr, vec![]).unwrap();
    exec.write(b"b", b"2".to_vec());
    state.finish_call("cw1user", exec, ok(empty_response())).unwrap();
    let mut exec = state.begin_execute(&addr, vec![]).unwrap();
    exec.write(b"a", b"1".to_vec());
    exec.write(b"c", b"3".to_vec());
    assert_eq!(
        exec.scan(&state, b"", None),
        vec![
            (b"a".to_vec(), b"1".to_vec()),
            (b"b".to_vec(), b"2".to_vec()),
            (b"c".to_vec(), b"3".to_vec()),
        ]
    );
    assert_eq!(exec.scan(&state, b"b", Some(b"c")), vec![(b"b".to_vec(), b"2".to_vec())]);
    assert_eq!(state.contract_scan(&addr, b"", None), vec![(b"b".to_vec(), b"2".to_vec())]);
    assert_eq!(state.contract_scan(&"cw1none".to_string(), b"", None), vec![]);
}

#[test]
fn accounts_pagination() {
    let mut state = State::new("c".to_string());
    for (addr, seq) in [("cw1c", 3u64), ("cw1a", 1), ("cw1b", 2), ("cw1d", 4)] {
        state.set_base_account(addr.to_string(), "pk".to_string(), seq).unwrap();
    }
    state.set_base_account("cw1a".to_string(), "pk".to_string(), 9).unwrap();
    let addrs = |v: Vec<cw_state_machine::msg::AccountResponse>| -> Vec<String> {
        v.into_iter().map(|a| a.address).collect()
    };
    assert_eq!(addrs(state.query_accounts(None, None)), vec!["cw1a", "cw1b", "cw1c", "cw1d"]);
    assert_eq!(addrs(state.query_accounts(Some("cw1a".to_string()), Some(2))), vec!["cw1b", "cw1c"]);
    assert_eq!(addrs(state.query_accounts(Some("cw1d".to_string()), None)), Vec::<String>::new());
    assert_eq!(addrs(state.query_accounts(None, Some(0))), Vec::<String>::new());
    assert_eq!(
        state.query_accounts(None, Some(1))[0].account,
        Some(Account::Base { pubkey: "pk".to_string(), sequence: 9 })
    );
}
