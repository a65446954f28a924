//! The regular, ideal flow of the car-wash example project: publish,
//! initialise, register a user, buy a coin for value, wash a car.

use move_pallet::abi::{FunctionSig, TypeTag};
use move_pallet::addr::{AccountId, MoveAddress};
use move_pallet::codec::{encode_module, encode_transaction, ModuleDef, ScriptTransaction};
use move_pallet::coordinator::{execute, publish_module, EngineOutcome, ExecutionEngine};
use move_pallet::state::{Change, EffectSet, LedgerState, ModuleEntry};
use move_pallet::STATUS_EXECUTED;

const MAX_GAS_AMOUNT: u64 = 1_000_000;
const COIN_PRICE: u64 = 1_000_000_000_000;

const ALICE_ADDR: u64 = 100;
const BOB_ADDR: u64 = 200;

fn account_n_address(n: u64) -> (AccountId, MoveAddress) {
    (AccountId { value: n }, MoveAddress { value: n })
}

fn sig(name: &str, params: Vec<TypeTag>) -> FunctionSig {
    FunctionSig { name: name.as_bytes().to_vec(), is_public: true, params, ret: TypeTag::Unit }
}

fn car_wash_module() -> Vec<u8> {
    let def = ModuleDef {
        name: b"CarWash".to_vec(),
        deps: Vec::new(),
        functions: vec![
            sig("initial_coin_minting", vec![TypeTag::Signer]),
            sig("register_new_user", vec![TypeTag::Signer]),
            sig("buy_coin", vec![TypeTag::Signer, TypeTag::U8]),
            sig("wash_car", vec![TypeTag::Signer]),
        ],
        structs: Vec::new(),
    };
    encode_module(&def)
}

fn script_transaction(function: &str, actor: MoveAddress, extra: Option<u8>) -> Vec<u8> {
    let mut args = actor.value.to_le_bytes().to_vec();
    if let Some(x) = extra {
        args.push(x);
    }
    let tx = ScriptTransaction {
        module_addr: MoveAddress { value: BOB_ADDR },
        module_name: b"CarWash".to_vec(),
        function: function.as_bytes().to_vec(),
        args,
    };
    encode_transaction(&tx)
}

fn actor_of(args: &Vec<u8>) -> MoveAddress {
    let mut eight = [0u8; 8];
    eight.copy_from_slice(&args[0..8]);
    MoveAddress { value: u64::from_le_bytes(eight) }
}

fn coins_of(state: &LedgerState, who: MoveAddress) -> Option<u8> {
    state.read_resource(who, &b"Coins".to_vec()).map(|d| d[0])
}

struct CarWashEngine;

impl ExecutionEngine for CarWashEngine {
    fn run_entry(
        &self,
        state: &LedgerState,
        _module: &ModuleEntry,
        function: &Vec<u8>,
        args: &Vec<u8>,
        _gas_limit: u64,
    ) -> EngineOutcome {
        let ok = |changes: Vec<Change>| EngineOutcome {
            vm_status_code: STATUS_EXECUTED,
            gas_used: 0,
            effects: EffectSet { changes },
        };
        let fault = |code: u64| EngineOutcome {
            vm_status_code: code,
            gas_used: 0,
            effects: EffectSet { changes: Vec::new() },
        };
        let actor = actor_of(args);
        if function == b"initial_coin_minting" {
            ok(vec![Change::WriteResource {
                addr: actor,
                tag: b"CoinStore".to_vec(),
                data: vec![100],
            }])
        } else if function == b"register_new_user" {
            ok(vec![Change::WriteResource { addr: actor, tag: b"Coins".to_vec(), data: vec![0] }])
        } else if function == b"buy_coin" {
            match coins_of(state, actor) {
                Some(n) => ok(vec![Change::WriteResource {
                    addr: actor,
                    tag: b"Coins".to_vec(),
                    data: vec![n + args[8]],
                }]),
                None => fault(40),
            }
        } else if function == b"wash_car" {
            match coins_of(state, actor) {
                Some(0) | None => fault(41),
                Some(n) => ok(vec![Change::WriteResource {
                    addr: actor,
                    tag: b"Coins".to_vec(),
                    data: vec![n - 1],
                }]),
            }
        } else {
            fault(42)
        }
    }
}

#[test]
fn verify_normal_use_case() {
    let (alice_addr_32, alice_addr_mv) = account_n_address(ALICE_ADDR);
    let (bob_addr_32, bob_addr_mv) = account_n_address(BOB_ADDR);

    let mut state = LedgerState::empty();
    state.set_balance(alice_addr_32, 10_000_000_000_000);
    let engine = CarWashEngine;

    // Check initial state of balances of involved users.
    let ini_blnc_alice = state.balance_of(alice_addr_32);
    let ini_blnc_bob = state.balance_of(bob_addr_32);

    // Let's publish Bob's module CarWash.
    let module_bc = car_wash_module();
    assert!(publish_module(&mut state, bob_addr_32, &module_bc, MAX_GAS_AMOUNT).is_ok());

    // Now Bob initialises his module.
    let transaction_bc = script_transaction("initial_coin_minting", bob_addr_mv, None);
    assert!(execute(&mut state, &engine, bob_addr_32, &transaction_bc, MAX_GAS_AMOUNT, 0).is_ok());

    // Now Alice comes over to wash her car for the first time...
    let transaction_bc = script_transaction("register_new_user", alice_addr_mv, None);
    assert!(
        execute(&mut state, &engine, alice_addr_32, &transaction_bc, MAX_GAS_AMOUNT, 0).is_ok()
    );

    let transaction_bc = script_transaction("buy_coin", alice_addr_mv, Some(1));
    assert!(execute(
        &mut state,
        &engine,
        alice_addr_32,
        &transaction_bc,
        MAX_GAS_AMOUNT,
        COIN_PRICE
    )
    .is_ok());

    let transaction_bc = script_transaction("wash_car", alice_addr_mv, None);
    assert!(
        execute(&mut state, &engine, alice_addr_32, &transaction_bc, MAX_GAS_AMOUNT, 0).is_ok()
    );

    let now_blnc_alice = state.balance_of(alice_addr_32);
    let now_blnc_bob = state.balance_of(bob_addr_32);
    assert_eq!(ini_blnc_alice - COIN_PRICE, now_blnc_alice);
    assert_eq!(ini_blnc_bob + COIN_PRICE, now_blnc_bob);

    // No intermediate step left a negative balance: the coin was paid once
    // and the wash consumed it.
    assert_eq!(coins_of(&state, alice_addr_mv), Some(0));
}
