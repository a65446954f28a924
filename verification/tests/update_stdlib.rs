//! Tests related to the privileged standard-library bundle upgrade.

use move_pallet::abi::{FunctionSig, TypeTag};
use move_pallet::addr::{AccountId, MoveAddress};
use move_pallet::codec::{encode_bundle, encode_module, encode_transaction, ModuleDef,
    ScriptTransaction};
use move_pallet::coordinator::{execute, publish_module, update_stdlib_bundle, EngineOutcome,
    ExecutionEngine, MoveError, Origin};
use move_pallet::state::{EffectSet, LedgerState, ModuleEntry, ModuleId};
use move_pallet::{STATUS_EXECUTED, STDLIB_ADDRESS};

const MAX_GAS_AMOUNT: u64 = 1_000_000;
const BOB_ADDR: u64 = 200;

fn account(n: u64) -> AccountId {
    AccountId { value: n }
}

fn stdlib_module(transfer_params: Vec<TypeTag>, with_mint: bool) -> ModuleDef {
    let mut functions = vec![FunctionSig {
        name: b"transfer".to_vec(),
        is_public: true,
        params: transfer_params,
        ret: TypeTag::Unit,
    }];
    if with_mint {
        functions.push(FunctionSig {
            name: b"mint".to_vec(),
            is_public: true,
            params: vec![TypeTag::Address, TypeTag::U64],
            ret: TypeTag::Unit,
        });
    }
    ModuleDef { name: b"Stdlib".to_vec(), deps: Vec::new(), functions, structs: Vec::new() }
}

/// The stock standard library: `transfer(Address, U64)`.
fn default_stdlib() -> Vec<u8> {
    encode_bundle(&vec![stdlib_module(vec![TypeTag::Address, TypeTag::U64], false)])
}

/// A mock library whose `transfer` gained a parameter.
fn mock_move_stdlib() -> Vec<u8> {
    encode_bundle(&vec![stdlib_module(
        vec![TypeTag::Address, TypeTag::U64, TypeTag::U8],
        false,
    )])
}

/// A mock library with the stock interface plus a new method.
fn mock_substrate_stdlib() -> Vec<u8> {
    encode_bundle(&vec![stdlib_module(vec![TypeTag::Address, TypeTag::U64], true)])
}

/// A fresh state whose reserved namespace holds the stock standard library.
fn build_default() -> LedgerState {
    let mut state = LedgerState::empty();
    assert!(update_stdlib_bundle(&mut state, Origin::Root, &default_stdlib()).is_ok());
    state
}

struct NopEngine;

impl ExecutionEngine for NopEngine {
    fn run_entry(
        &self,
        _state: &LedgerState,
        _module: &ModuleEntry,
        _function: &Vec<u8>,
        _args: &Vec<u8>,
        _gas_limit: u64,
    ) -> EngineOutcome {
        EngineOutcome {
            vm_status_code: STATUS_EXECUTED,
            gas_used: 0,
            effects: EffectSet { changes: Vec::new() },
        }
    }
}

#[test]
fn regular_user_update_fail() {
    let bob_addr_native = account(BOB_ADDR);

    let mut state = build_default();
    assert_eq!(
        update_stdlib_bundle(
            &mut state,
            Origin::Signed { account: bob_addr_native },
            &mock_move_stdlib(),
        ),
        Err(MoveError::BadOrigin),
    );
    assert_eq!(
        update_stdlib_bundle(
            &mut state,
            Origin::Signed { account: bob_addr_native },
            &mock_substrate_stdlib(),
        ),
        Err(MoveError::BadOrigin),
    );
}

#[test]
fn change_interface_add_param_fail() {
    // The default state includes the stock standard library.
    let mut state = build_default();
    let res = update_stdlib_bundle(&mut state, Origin::Root, &mock_move_stdlib());
    assert!(res == Err(MoveError::BackwardIncompatibleModuleUpdate));
}

#[test]
fn change_stdlib_api_remove_param_fail() {
    // Build a state whose library already has the extra parameter ...
    let mut state = LedgerState::empty();
    assert!(update_stdlib_bundle(&mut state, Origin::Root, &mock_move_stdlib()).is_ok());
    // ... then try to go back to the stock interface, removing it.
    let res = update_stdlib_bundle(&mut state, Origin::Root, &default_stdlib());
    assert!(res == Err(MoveError::BackwardIncompatibleModuleUpdate));
}

#[test]
fn add_new_methods_or_update_methods_works() {
    let bob_addr_native = account(BOB_ADDR);
    let bob_addr_move = MoveAddress { value: BOB_ADDR };

    let mut state = build_default();

    // Publish some module to the fitting interface.
    let car_wash_module = encode_module(&ModuleDef {
        name: b"CarWash".to_vec(),
        deps: vec![ModuleId {
            addr: MoveAddress { value: STDLIB_ADDRESS },
            name: b"Stdlib".to_vec(),
        }],
        functions: vec![FunctionSig {
            name: b"initial_coin_minting".to_vec(),
            is_public: true,
            params: vec![TypeTag::Signer],
            ret: TypeTag::Unit,
        }],
        structs: Vec::new(),
    });
    assert!(
        publish_module(&mut state, bob_addr_native, &car_wash_module, MAX_GAS_AMOUNT).is_ok()
    );

    // Update the library with extended and modified functionality.
    assert!(update_stdlib_bundle(&mut state, Origin::Root, &mock_substrate_stdlib()).is_ok());

    // Test the module is still working in its bounds.
    let transaction_bc = encode_transaction(&ScriptTransaction {
        module_addr: bob_addr_move,
        module_name: b"CarWash".to_vec(),
        function: b"initial_coin_minting".to_vec(),
        args: Vec::new(),
    });
    let engine = NopEngine;
    assert!(
        execute(&mut state, &engine, bob_addr_native, &transaction_bc, MAX_GAS_AMOUNT, 0).is_ok()
    );
}
