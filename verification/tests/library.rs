//! Library-level tests: codec round trips, compatibility checking, bundle
//! atomicity, query determinism, gas estimation fidelity, and the error
//! paths of every command.

use move_pallet::abi::{FunctionSig, ModuleAbi, StructLayout, TypeTag};
use move_pallet::addr::{AccountId, MoveAddress};
use move_pallet::codec::{decode_module, decode_transaction, encode_bundle, encode_module,
    encode_transaction, ModuleDef, ScriptTransaction};
use move_pallet::compat::{check_compatible, CompatIssue};
use move_pallet::coordinator::{execute, publish_module, update_stdlib_bundle, EngineOutcome,
    ExecutionEngine, GasMeter, MoveError, Origin, PUBLISH_GAS_BASE};
use move_pallet::pallet::{weight_of, Estimation, MovePallet, BASE_WEIGHT};
use move_pallet::state::{Change, EffectSet, LedgerState, ModuleEntry, ModuleId};
use move_pallet::{
    STATUS_EXECUTED, STATUS_INSUFFICIENT_BALANCE, STATUS_OUT_OF_GAS, STATUS_REJECTED_EFFECTS,
    STDLIB_ADDRESS,
};

const MAX_GAS: u64 = 1_000_000;

fn account(n: u64) -> AccountId {
    AccountId { value: n }
}

fn addr(n: u64) -> MoveAddress {
    MoveAddress { value: n }
}

fn sig(name: &str, params: Vec<TypeTag>, ret: TypeTag) -> FunctionSig {
    FunctionSig { name: name.as_bytes().to_vec(), is_public: true, params, ret }
}

fn module(name: &str, functions: Vec<FunctionSig>) -> ModuleDef {
    ModuleDef { name: name.as_bytes().to_vec(), deps: Vec::new(), functions, structs: Vec::new() }
}

fn abi_of(functions: Vec<FunctionSig>, structs: Vec<StructLayout>) -> ModuleAbi {
    ModuleAbi { functions, structs }
}

fn tx(target: u64, module_name: &str, function: &str, args: Vec<u8>) -> Vec<u8> {
    encode_transaction(&ScriptTransaction {
        module_addr: addr(target),
        module_name: module_name.as_bytes().to_vec(),
        function: function.as_bytes().to_vec(),
        args,
    })
}

/// An engine with a fixed outcome.
struct FixedEngine {
    status: u64,
    gas: u64,
    module_write: bool,
}

impl ExecutionEngine for FixedEngine {
    fn run_entry(
        &self,
        _state: &LedgerState,
        module: &ModuleEntry,
        _function: &Vec<u8>,
        _args: &Vec<u8>,
        _gas_limit: u64,
    ) -> EngineOutcome {
        let mut changes = vec![Change::WriteResource {
            addr: addr(7),
            tag: b"Marker".to_vec(),
            data: vec![1, 2, 3],
        }];
        if self.module_write {
            changes.push(Change::WriteModule {
                entry: ModuleEntry {
                    addr: module.addr,
                    name: b"Smuggled".to_vec(),
                    bytecode: Vec::new(),
                    abi: ModuleAbi { functions: Vec::new(), structs: Vec::new() },
                    deps: Vec::new(),
                },
            });
        }
        EngineOutcome {
            vm_status_code: self.status,
            gas_used: self.gas,
            effects: EffectSet { changes },
        }
    }
}

fn published_state(owner: u64, def: &ModuleDef) -> LedgerState {
    let mut state = LedgerState::empty();
    let bytes = encode_module(def);
    assert_eq!(publish_module(&mut state, account(owner), &bytes, MAX_GAS), Ok(()));
    state
}

#[test]
fn module_codec_round_trip() {
    let def = ModuleDef {
        name: b"Exchange".to_vec(),
        deps: vec![ModuleId { addr: addr(1), name: b"Stdlib".to_vec() }],
        functions: vec![
            sig("swap", vec![TypeTag::Address, TypeTag::U64], TypeTag::U64),
            FunctionSig {
                name: b"internal_audit".to_vec(),
                is_public: false,
                params: vec![TypeTag::Bytes],
                ret: TypeTag::Bool,
            },
        ],
        structs: vec![StructLayout {
            name: b"Pool".to_vec(),
            fields: vec![TypeTag::U128, TypeTag::U128],
        }],
    };
    let bytes = encode_module(&def);
    let entry = decode_module(&bytes, addr(9)).expect("encoded module must decode");
    assert_eq!(entry.name, b"Exchange".to_vec());
    assert_eq!(entry.addr.value, 9);
    assert_eq!(entry.bytecode, bytes);
    assert_eq!(entry.deps.len(), 1);
    assert_eq!(entry.deps[0].addr.value, 1);
    assert_eq!(entry.deps[0].name, b"Stdlib".to_vec());
    assert_eq!(entry.abi.functions.len(), 2);
    assert_eq!(entry.abi.functions[0].name, b"swap".to_vec());
    assert!(entry.abi.functions[0].is_public);
    assert_eq!(entry.abi.functions[0].params, vec![TypeTag::Address, TypeTag::U64]);
    assert_eq!(entry.abi.functions[0].ret, TypeTag::U64);
    assert!(!entry.abi.functions[1].is_public);
    assert_eq!(entry.abi.structs.len(), 1);
    assert_eq!(entry.abi.structs[0].fields, vec![TypeTag::U128, TypeTag::U128]);
}

#[test]
fn transaction_codec_round_trip() {
    let bytes = tx(42, "CarWash", "buy_coin", vec![9, 9, 9]);
    let t = decode_transaction(&bytes).expect("encoded transaction must decode");
    assert_eq!(t.module_addr.value, 42);
    assert_eq!(t.module_name, b"CarWash".to_vec());
    assert_eq!(t.function, b"buy_coin".to_vec());
    assert_eq!(t.args, vec![9, 9, 9]);
}

#[test]
fn decode_rejects_garbage() {
    assert!(decode_module(&vec![0xff, 0x00], addr(1)).is_none());
    assert!(decode_module(&Vec::new(), addr(1)).is_none());
    assert!(decode_transaction(&vec![1, 2, 3]).is_none());
    // Trailing bytes after a valid module are refused.
    let ok = module("Solo", vec![sig("f", vec![], TypeTag::Unit)]);
    let mut bytes = encode_module(&ok);
    assert!(decode_module(&bytes, addr(1)).is_some());
    bytes.push(0);
    assert!(decode_module(&bytes, addr(1)).is_none());
}

#[test]
fn identical_interface_is_compatible() {
    let old = abi_of(
        vec![sig("transfer", vec![TypeTag::Address, TypeTag::U64], TypeTag::Unit)],
        vec![StructLayout { name: b"Acct".to_vec(), fields: vec![TypeTag::U64] }],
    );
    let new = abi_of(
        vec![
            sig("transfer", vec![TypeTag::Address, TypeTag::U64], TypeTag::Unit),
            sig("extra", vec![], TypeTag::Unit),
        ],
        vec![StructLayout {
            name: b"Acct".to_vec(),
            fields: vec![TypeTag::U64, TypeTag::Bool],
        }],
    );
    // Additions, to functions and to layout fields, never break callers.
    assert!(check_compatible(&old, &new).is_compatible());
}

#[test]
fn gaining_and_losing_a_parameter_fail_identically() {
    let two = abi_of(
        vec![sig("transfer", vec![TypeTag::Address, TypeTag::U64], TypeTag::Unit)],
        Vec::new(),
    );
    let three = abi_of(
        vec![sig(
            "transfer",
            vec![TypeTag::Address, TypeTag::U64, TypeTag::U8],
            TypeTag::Unit,
        )],
        Vec::new(),
    );
    let gained = check_compatible(&two, &three);
    let lost = check_compatible(&three, &two);
    assert!(!gained.is_compatible());
    assert!(!lost.is_compatible());
    assert!(matches!(gained.issues[0], CompatIssue::ParameterCountChanged { .. }));
    assert!(matches!(lost.issues[0], CompatIssue::ParameterCountChanged { .. }));
}

#[test]
fn compat_report_names_the_break() {
    let old = abi_of(
        vec![
            sig("a", vec![TypeTag::U8], TypeTag::Unit),
            sig("b", vec![TypeTag::U8], TypeTag::Unit),
            sig("c", vec![], TypeTag::U64),
        ],
        Vec::new(),
    );
    let new = abi_of(
        vec![
            sig("a", vec![TypeTag::U64], TypeTag::Unit),
            sig("c", vec![], TypeTag::U128),
        ],
        Vec::new(),
    );
    let report = check_compatible(&old, &new);
    assert_eq!(report.issues.len(), 3);
    assert!(matches!(
        report.issues[0],
        CompatIssue::ParameterTypeChanged { index: 0, .. }
    ));
    assert!(matches!(report.issues[1], CompatIssue::FunctionRemoved { .. }));
    assert!(matches!(report.issues[2], CompatIssue::ReturnTypeChanged { .. }));
}

#[test]
fn layout_changes_are_checked() {
    let old = abi_of(
        Vec::new(),
        vec![StructLayout { name: b"Row".to_vec(), fields: vec![TypeTag::U64, TypeTag::Bool] }],
    );
    let reordered = abi_of(
        Vec::new(),
        vec![StructLayout { name: b"Row".to_vec(), fields: vec![TypeTag::Bool, TypeTag::U64] }],
    );
    let dropped = abi_of(Vec::new(), Vec::new());
    assert!(!check_compatible(&old, &reordered).is_compatible());
    assert!(matches!(
        check_compatible(&old, &dropped).issues[0],
        CompatIssue::LayoutRemoved { .. }
    ));
}

#[test]
fn bundle_upgrade_is_all_or_nothing() {
    // Ten modules; the replacement of exactly one is incompatible.
    let mut defs: Vec<ModuleDef> = Vec::new();
    for i in 0..10u8 {
        let name = format!("Module{}", i);
        defs.push(module(&name, vec![sig("run", vec![TypeTag::U64], TypeTag::Unit)]));
    }
    let mut state = LedgerState::empty();
    assert_eq!(update_stdlib_bundle(&mut state, Origin::Root, &encode_bundle(&defs)), Ok(()));
    let old_bytecodes: Vec<Option<Vec<u8>>> = (0..10u8)
        .map(|i| {
            let pallet = MovePallet::new(vec![state.clone()], NopEngine);
            pallet.get_module(
                account(STDLIB_ADDRESS),
                &format!("Module{}", i).as_bytes().to_vec(),
                None,
            )
        })
        .collect();

    let mut new_defs: Vec<ModuleDef> = Vec::new();
    for i in 0..10u8 {
        let name = format!("Module{}", i);
        let params = if i == 3 {
            vec![TypeTag::U64, TypeTag::U8]  // the one incompatible replacement
        } else {
            vec![TypeTag::U64]
        };
        new_defs.push(module(&name, vec![sig("run", params, TypeTag::Unit)]));
    }
    assert_eq!(
        update_stdlib_bundle(&mut state, Origin::Root, &encode_bundle(&new_defs)),
        Err(MoveError::BackwardIncompatibleModuleUpdate),
    );
    // Zero of the ten modules were updated.
    for i in 0..10u8 {
        let pallet = MovePallet::new(vec![state.clone()], NopEngine);
        let now = pallet.get_module(
            account(STDLIB_ADDRESS),
            &format!("Module{}", i).as_bytes().to_vec(),
            None,
        );
        assert_eq!(now, old_bytecodes[i as usize]);
    }
}

#[test]
fn dropping_a_depended_on_module_is_incompatible() {
    let mut state = LedgerState::empty();
    let bundle = encode_bundle(&vec![
        module("Core", vec![sig("go", vec![], TypeTag::Unit)]),
        module("Extra", vec![sig("ho", vec![], TypeTag::Unit)]),
    ]);
    assert_eq!(update_stdlib_bundle(&mut state, Origin::Root, &bundle), Ok(()));
    // A user module records a dependency on Extra.
    let user = ModuleDef {
        name: b"User".to_vec(),
        deps: vec![ModuleId { addr: addr(STDLIB_ADDRESS), name: b"Extra".to_vec() }],
        functions: vec![sig("main", vec![], TypeTag::Unit)],
        structs: Vec::new(),
    };
    assert_eq!(publish_module(&mut state, account(50), &encode_module(&user), MAX_GAS), Ok(()));
    // A bundle that silently drops Extra is refused.
    let dropped = encode_bundle(&vec![module("Core", vec![sig("go", vec![], TypeTag::Unit)])]);
    assert_eq!(
        update_stdlib_bundle(&mut state, Origin::Root, &dropped),
        Err(MoveError::BackwardIncompatibleModuleUpdate),
    );
}

struct NopEngine;

impl ExecutionEngine for NopEngine {
    fn run_entry(
        &self,
        _state: &LedgerState,
        _module: &ModuleEntry,
        _function: &Vec<u8>,
        _args: &Vec<u8>,
        _gas_limit: u64,
    ) -> EngineOutcome {
        EngineOutcome {
            vm_status_code: STATUS_EXECUTED,
            gas_used: 0,
            effects: EffectSet { changes: Vec::new() },
        }
    }
}

#[test]
fn publish_error_paths() {
    let mut state = LedgerState::empty();
    // Malformed bytecode.
    assert_eq!(
        publish_module(&mut state, account(5), &vec![0xde, 0xad], MAX_GAS),
        Err(MoveError::InvalidModuleBytecode),
    );
    // A gas ceiling below the decode cost.
    let def = module("Tiny", vec![sig("f", vec![], TypeTag::Unit)]);
    let bytes = encode_module(&def);
    assert_eq!(
        publish_module(&mut state, account(5), &bytes, 1),
        Err(MoveError::GasLimitExceeded),
    );
    // An unresolved dependency.
    let depender = ModuleDef {
        name: b"Needy".to_vec(),
        deps: vec![ModuleId { addr: addr(1), name: b"Missing".to_vec() }],
        functions: vec![sig("f", vec![], TypeTag::Unit)],
        structs: Vec::new(),
    };
    assert_eq!(
        publish_module(&mut state, account(5), &encode_module(&depender), MAX_GAS),
        Err(MoveError::DependencyNotFound),
    );
    // An incompatible update of an occupied identity.
    assert_eq!(publish_module(&mut state, account(5), &bytes, MAX_GAS), Ok(()));
    let changed = module("Tiny", vec![sig("f", vec![TypeTag::U8], TypeTag::Unit)]);
    assert_eq!(
        publish_module(&mut state, account(5), &encode_module(&changed), MAX_GAS),
        Err(MoveError::BackwardIncompatibleModuleUpdate),
    );
    // A compatible update of the same identity is accepted.
    let extended = module(
        "Tiny",
        vec![sig("f", vec![], TypeTag::Unit), sig("g", vec![], TypeTag::Unit)],
    );
    assert_eq!(
        publish_module(&mut state, account(5), &encode_module(&extended), MAX_GAS),
        Ok(()),
    );
}

#[test]
fn execute_error_paths_are_atomic() {
    let def = module("Target", vec![sig("go", vec![], TypeTag::Unit)]);
    let mut state = published_state(30, &def);
    state.set_balance(account(40), 500);
    let marker_before = state.read_resource(addr(7), &b"Marker".to_vec()).cloned();

    // Malformed transaction.
    let bad = vec![1u8];
    assert_eq!(
        execute(&mut state, &NopEngine, account(40), &bad, MAX_GAS, 0),
        Err(MoveError::InvalidTransaction),
    );
    // Unknown module.
    let missing = tx(31, "Target", "go", Vec::new());
    assert_eq!(
        execute(&mut state, &NopEngine, account(40), &missing, MAX_GAS, 0),
        Err(MoveError::UnknownModule),
    );
    let good = tx(30, "Target", "go", Vec::new());
    // Engine fault: status surfaces, nothing committed.
    let faulty = FixedEngine { status: 77, gas: 5, module_write: false };
    assert_eq!(
        execute(&mut state, &faulty, account(40), &good, MAX_GAS, 0),
        Err(MoveError::ExecutionFailed { vm_status_code: 77, gas_used: 5 }),
    );
    // Out of gas: the ceiling is reported as consumed.
    let greedy = FixedEngine { status: STATUS_EXECUTED, gas: 100, module_write: false };
    assert_eq!(
        execute(&mut state, &greedy, account(40), &good, 10, 0),
        Err(MoveError::ExecutionFailed {
            vm_status_code: STATUS_OUT_OF_GAS,
            gas_used: 10,
        }),
    );
    // A script may not write modules.
    let smuggler = FixedEngine { status: STATUS_EXECUTED, gas: 5, module_write: true };
    assert_eq!(
        execute(&mut state, &smuggler, account(40), &good, MAX_GAS, 0),
        Err(MoveError::ExecutionFailed {
            vm_status_code: STATUS_REJECTED_EFFECTS,
            gas_used: 5,
        }),
    );
    // An unpayable value transfer discards the effects.
    let clean = FixedEngine { status: STATUS_EXECUTED, gas: 5, module_write: false };
    assert_eq!(
        execute(&mut state, &clean, account(40), &good, MAX_GAS, 501),
        Err(MoveError::ExecutionFailed {
            vm_status_code: STATUS_INSUFFICIENT_BALANCE,
            gas_used: 5,
        }),
    );
    // After every fault above, nothing was written and nothing debited.
    assert_eq!(state.read_resource(addr(7), &b"Marker".to_vec()).cloned(), marker_before);
    assert_eq!(state.balance_of(account(40)), 500);
    assert_eq!(state.balance_of(account(30)), 0);

    // The same engine outcome within the ceiling commits its effects and
    // the transfer.
    assert_eq!(
        execute(&mut state, &clean, account(40), &good, MAX_GAS, 500),
        Ok(move_pallet::coordinator::ExecReceipt {
            vm_status_code: STATUS_EXECUTED,
            gas_used: 5,
        }),
    );
    assert_eq!(
        state.read_resource(addr(7), &b"Marker".to_vec()).cloned(),
        Some(vec![1, 2, 3]),
    );
    assert_eq!(state.balance_of(account(40)), 0);
    assert_eq!(state.balance_of(account(30)), 500);
}

#[test]
fn estimate_gas_matches_real_execution() {
    let def = module("Target", vec![sig("go", vec![], TypeTag::Unit)]);
    let state = published_state(30, &def);
    let engine = FixedEngine { status: STATUS_EXECUTED, gas: 777, module_write: false };
    let good = tx(30, "Target", "go", Vec::new());

    let pallet = MovePallet::new(vec![state.clone()], engine);
    let est = pallet.estimate_gas_execute_script(&good, None).expect("estimation succeeds");
    assert_eq!(est.vm_status_code, STATUS_EXECUTED);
    assert_eq!(est.total_weight_including_gas_used, weight_of(est.gas_used));

    // A real execution with sufficient gas reports the same gas used, and
    // the estimate itself changed no storage and no balance.
    let mut live = state.clone();
    let engine = FixedEngine { status: STATUS_EXECUTED, gas: 777, module_write: false };
    let receipt = execute(&mut live, &engine, account(40), &good, MAX_GAS, 0).unwrap();
    assert_eq!(receipt.gas_used, est.gas_used);
    assert_eq!(est.gas_used, 777);
    let untouched = pallet.get_resource(account(7), &b"Marker".to_vec(), None);
    assert_eq!(untouched, None);
}

#[test]
fn estimate_publish_paths() {
    let def = module("Tiny", vec![sig("f", vec![], TypeTag::Unit)]);
    let bytes = encode_module(&def);
    let state = LedgerState::empty();
    let pallet = MovePallet::new(vec![state], NopEngine);
    let est = pallet.estimate_gas_publish_module(account(5), &bytes, None).unwrap();
    assert_eq!(est.gas_used, PUBLISH_GAS_BASE + bytes.len() as u64);
    assert_eq!(est.vm_status_code, STATUS_EXECUTED);
    assert_eq!(est.total_weight_including_gas_used, BASE_WEIGHT + est.gas_used);
    assert_eq!(
        pallet.estimate_gas_publish_module(account(5), &vec![9u8], None),
        Err(MoveError::InvalidModuleBytecode),
    );

    let bundle = encode_bundle(&vec![
        module("A", vec![sig("f", vec![], TypeTag::Unit)]),
        module("B", vec![sig("g", vec![], TypeTag::Unit)]),
    ]);
    let est = pallet.estimate_gas_publish_bundle(account(5), &bundle, None).unwrap();
    assert_eq!(est.gas_used, PUBLISH_GAS_BASE + bundle.len() as u64);
    assert_eq!(
        pallet.estimate_gas_publish_bundle(account(5), &Vec::new(), None),
        Err(MoveError::InvalidBundle),
    );
}

#[test]
fn queries_are_deterministic_per_block() {
    let def = module("Fixed", vec![sig("f", vec![], TypeTag::Unit)]);
    let block0 = published_state(30, &def);
    // Block 1: the module is replaced by a compatible extension.
    let mut block1 = block0.clone();
    let extended = module(
        "Fixed",
        vec![sig("f", vec![], TypeTag::Unit), sig("g", vec![], TypeTag::Unit)],
    );
    assert_eq!(
        publish_module(&mut block1, account(30), &encode_module(&extended), MAX_GAS),
        Ok(()),
    );
    let pallet = MovePallet::new(vec![block0, block1], NopEngine);
    let name = b"Fixed".to_vec();
    // Repeated queries at the same block reference return identical
    // results, whatever other queries run in between.
    let first = pallet.get_module(account(30), &name, Some(0));
    let _other = pallet.get_module(account(30), &name, Some(1));
    let _abi = pallet.get_module_abi(account(30), &name, None);
    let again = pallet.get_module(account(30), &name, Some(0));
    assert_eq!(first, again);
    // The historical result differs from the best state's, which saw the
    // replacement.
    let latest = pallet.get_module(account(30), &name, None);
    assert_ne!(first, latest);
    assert_eq!(latest, pallet.get_module(account(30), &name, Some(1)));
}

#[test]
fn resource_and_abi_queries() {
    let def = module("Holder", vec![sig("f", vec![], TypeTag::Unit)]);
    let mut state = published_state(30, &def);
    state.set_resource(addr(30), b"Data".to_vec(), vec![5, 6]);
    let pallet = MovePallet::new(vec![state], NopEngine);
    assert_eq!(pallet.get_resource(account(30), &b"Data".to_vec(), None), Some(vec![5, 6]));
    assert_eq!(pallet.get_resource(account(31), &b"Data".to_vec(), None), None);
    let abi = pallet.get_module_abi(account(30), &b"Holder".to_vec(), None).unwrap();
    assert_eq!(abi.functions.len(), 1);
    assert_eq!(abi.functions[0].name, b"f".to_vec());
    assert!(pallet.get_module_abi(account(30), &b"Nothing".to_vec(), None).is_none());
}

/// An engine whose run deletes one resource and writes another.
struct SweepEngine;

impl ExecutionEngine for SweepEngine {
    fn run_entry(
        &self,
        _state: &LedgerState,
        _module: &ModuleEntry,
        _function: &Vec<u8>,
        _args: &Vec<u8>,
        _gas_limit: u64,
    ) -> EngineOutcome {
        EngineOutcome {
            vm_status_code: STATUS_EXECUTED,
            gas_used: 1,
            effects: EffectSet {
                changes: vec![
                    Change::DeleteResource { addr: addr(30), tag: b"Old".to_vec() },
                    Change::WriteResource {
                        addr: addr(30),
                        tag: b"New".to_vec(),
                        data: vec![1],
                    },
                ],
            },
        }
    }
}

#[test]
fn committed_effects_apply_in_order() {
    let def = module("Sweeper", vec![sig("sweep", vec![], TypeTag::Unit)]);
    let mut state = published_state(30, &def);
    state.set_resource(addr(30), b"Old".to_vec(), vec![9]);
    let good = tx(30, "Sweeper", "sweep", Vec::new());
    assert!(execute(&mut state, &SweepEngine, account(40), &good, MAX_GAS, 0).is_ok());
    assert!(state.read_resource(addr(30), &b"Old".to_vec()).is_none());
    assert_eq!(state.read_resource(addr(30), &b"New".to_vec()).cloned(), Some(vec![1]));
}

#[test]
fn estimate_bundle_mirrors_real_upgrade() {
    // A namespace with a library module and a helper that a user module
    // depends on.
    let mut state = LedgerState::empty();
    let bundle = encode_bundle(&vec![
        module("Core", vec![sig("go", vec![TypeTag::U64], TypeTag::Unit)]),
        module("Extra", vec![sig("ho", vec![], TypeTag::Unit)]),
    ]);
    assert_eq!(update_stdlib_bundle(&mut state, Origin::Root, &bundle), Ok(()));
    let user = ModuleDef {
        name: b"User".to_vec(),
        deps: vec![ModuleId { addr: addr(STDLIB_ADDRESS), name: b"Extra".to_vec() }],
        functions: vec![sig("main", vec![], TypeTag::Unit)],
        structs: Vec::new(),
    };
    assert_eq!(publish_module(&mut state, account(50), &encode_module(&user), MAX_GAS), Ok(()));
    let pallet = MovePallet::new(vec![state.clone()], NopEngine);

    // A parameter gained on Core: the estimate and the real upgrade agree.
    let gained = encode_bundle(&vec![
        module("Core", vec![sig("go", vec![TypeTag::U64, TypeTag::U8], TypeTag::Unit)]),
        module("Extra", vec![sig("ho", vec![], TypeTag::Unit)]),
    ]);
    let est = pallet.estimate_gas_publish_bundle(account(99), &gained, None);
    assert_eq!(est, Err(MoveError::BackwardIncompatibleModuleUpdate));
    let mut live = state.clone();
    assert_eq!(
        update_stdlib_bundle(&mut live, Origin::Root, &gained),
        Err(MoveError::BackwardIncompatibleModuleUpdate),
    );

    // A bundle that silently drops the depended-on Extra: both refuse.
    let dropped = encode_bundle(&vec![
        module("Core", vec![sig("go", vec![TypeTag::U64], TypeTag::Unit)]),
    ]);
    let est = pallet.estimate_gas_publish_bundle(account(99), &dropped, None);
    assert_eq!(est, Err(MoveError::BackwardIncompatibleModuleUpdate));
    let mut live = state.clone();
    assert_eq!(
        update_stdlib_bundle(&mut live, Origin::Root, &dropped),
        Err(MoveError::BackwardIncompatibleModuleUpdate),
    );

    // A purely additive extension: both accept, whatever account estimates.
    let extended = encode_bundle(&vec![
        module(
            "Core",
            vec![
                sig("go", vec![TypeTag::U64], TypeTag::Unit),
                sig("go_twice", vec![TypeTag::U64], TypeTag::Unit),
            ],
        ),
        module("Extra", vec![sig("ho", vec![], TypeTag::Unit)]),
    ]);
    let est = pallet.estimate_gas_publish_bundle(account(99), &extended, None).unwrap();
    assert_eq!(est.vm_status_code, STATUS_EXECUTED);
    assert_eq!(est.gas_used, PUBLISH_GAS_BASE + extended.len() as u64);
    let mut live = state.clone();
    assert_eq!(update_stdlib_bundle(&mut live, Origin::Root, &extended), Ok(()));
}

#[test]
fn executable_validity_checks() {
    // A well-formed module encodes; the checked encoder agrees with the
    // plain one.
    let def = module("Fine", vec![sig("f", vec![TypeTag::U8], TypeTag::Unit)]);
    let checked = move_pallet::codec::try_encode_module(&def).unwrap();
    assert_eq!(checked, encode_module(&def));
    // Colliding function names do not fit the wire format.
    let dup = module(
        "Dup",
        vec![sig("f", vec![], TypeTag::Unit), sig("f", vec![TypeTag::U8], TypeTag::Unit)],
    );
    assert!(move_pallet::codec::try_encode_module(&dup).is_none());
    // An over-long name does not fit either.
    let long = module(
        std::str::from_utf8(&[b'a'; 300]).unwrap(),
        vec![sig("f", vec![], TypeTag::Unit)],
    );
    assert!(move_pallet::codec::try_encode_module(&long).is_none());
    assert!(move_pallet::codec::module_def_wf(&def));
    // State and facade well-formedness checks.
    let state = published_state(30, &def);
    assert!(state.check_wf());
    let pallet = MovePallet::new(vec![state], NopEngine);
    assert!(pallet.check_wf());
    assert!(pallet.check_at(Some(0)));
    assert!(!pallet.check_at(Some(1)));
    assert!(pallet.check_at(None));
}

#[test]
fn weight_is_a_pure_function_of_gas() {
    assert_eq!(weight_of(0), BASE_WEIGHT);
    assert_eq!(weight_of(5), BASE_WEIGHT + 5);
    assert_eq!(weight_of(u64::MAX), u64::MAX);
    let e = Estimation {
        gas_used: 5,
        vm_status_code: STATUS_EXECUTED,
        total_weight_including_gas_used: weight_of(5),
    };
    assert_eq!(e.total_weight_including_gas_used, 1005);
}

#[test]
fn gas_meter_enforces_its_ceiling() {
    let mut meter = GasMeter::new(10);
    assert!(meter.charge(6));
    assert!(!meter.charge(5));
    assert_eq!(meter.used, 6);
    assert!(meter.charge(4));
    assert_eq!(meter.used, 10);
}
