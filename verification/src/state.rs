//! The ledger state adapter: a module/resource-addressable store over the
//! ledger's key space, with atomic commit of staged effect sets.
//!
//! A [`LedgerState`] holds the module table keyed by (address, name), the
//! resource table keyed by (address, type tag), and the account balances.
//! Every operation is specified against the [`StateView`] the tables denote;
//! side effects are confined to the commit of an [`EffectSet`], which
//! applies every staged change or, on a caller that never reaches it, none.

use vstd::prelude::*;

use crate::abi::{AbiView, ModuleAbi, abi_wf};
use crate::addr::{AccountId, MoveAddress};
use crate::assoc::{
    assoc_map, lemma_assoc_absent, lemma_assoc_contains, lemma_assoc_index, lemma_assoc_push,
    lemma_assoc_remove, lemma_assoc_update, lemma_nodup_remove, nodup_keys,
};
use crate::compat::bytes_equal;

verus! {

/// The identity of a module: its owning address and its name.
#[derive(Clone, Debug)]
pub struct ModuleId {
    pub addr: MoveAddress,
    pub name: Vec<u8>,
}

impl View for ModuleId {
    type V = (int, Seq<u8>);

    open spec fn view(&self) -> (int, Seq<u8>) {
        (self.addr.value as int, self.name@)
    }
}

/// One row of the module table.
#[derive(Clone, Debug)]
pub struct ModuleEntry {
    /// Owning address.
    pub addr: MoveAddress,
    /// Module name, unique under the owning address.
    pub name: Vec<u8>,
    /// The module's bytecode blob.
    pub bytecode: Vec<u8>,
    /// The parsed ABI of the bytecode.
    pub abi: ModuleAbi,
    /// The modules this module depends on.
    pub deps: Vec<ModuleId>,
}

/// Mathematical view of a stored module.
#[verifier::ext_equal]
pub struct ModuleRecView {
    pub bytecode: Seq<u8>,
    pub abi: AbiView,
    pub deps: Seq<(int, Seq<u8>)>,
}

/// Key of a module-table row.
pub open spec fn mkey(e: ModuleEntry) -> (int, Seq<u8>) {
    (e.addr.value as int, e.name@)
}

/// Value of a module-table row.
pub open spec fn mrec(e: ModuleEntry) -> ModuleRecView {
    ModuleRecView {
        bytecode: e.bytecode@,
        abi: e.abi@,
        deps: e.deps@.map_values(|d: ModuleId| d@),
    }
}

/// One row of the resource table.
#[derive(Clone, Debug)]
pub struct ResourceEntry {
    /// Owning address.
    pub addr: MoveAddress,
    /// Type tag of the resource, unique under the owning address.
    pub tag: Vec<u8>,
    /// The opaque serialized value.
    pub data: Vec<u8>,
}

/// One row of the balance table.
#[derive(Clone, Copy, Debug, PartialEq, Eq, Structural)]
pub struct BalanceEntry {
    pub account: AccountId,
    pub amount: u64,
}

/// Committed ledger state: the module, resource and balance tables.
#[derive(Clone, Debug)]
pub struct LedgerState {
    pub modules: Vec<ModuleEntry>,
    pub resources: Vec<ResourceEntry>,
    pub balances: Vec<BalanceEntry>,
}

/// Mathematical view of a ledger state.
#[verifier::ext_equal]
pub struct StateView {
    pub modules: Map<(int, Seq<u8>), ModuleRecView>,
    pub resources: Map<(int, Seq<u8>), Seq<u8>>,
    pub balances: Map<int, u64>,
}

/// The balance of an account, zero when the account holds no row.
pub open spec fn spec_balance(v: StateView, account: int) -> u64 {
    if v.balances.contains_key(account) {
        v.balances[account]
    } else {
        0
    }
}

impl LedgerState {
    /// The module table as a key/value sequence.
    pub open spec fn mpairs(self) -> Seq<((int, Seq<u8>), ModuleRecView)> {
        self.modules@.map_values(|e: ModuleEntry| (mkey(e), mrec(e)))
    }

    /// The resource table as a key/value sequence.
    pub open spec fn rpairs(self) -> Seq<((int, Seq<u8>), Seq<u8>)> {
        self.resources@.map_values(
            |e: ResourceEntry| ((e.addr.value as int, e.tag@), e.data@),
        )
    }

    /// The balance table as a key/value sequence.
    pub open spec fn bpairs(self) -> Seq<(int, u64)> {
        self.balances@.map_values(|e: BalanceEntry| (e.account.value as int, e.amount))
    }

    /// Well-formedness: each table keyed uniquely, and every stored ABI well
    /// formed.
    pub open spec fn wf(self) -> bool {
        &&& nodup_keys(self.mpairs())
        &&& nodup_keys(self.rpairs())
        &&& nodup_keys(self.bpairs())
        &&& forall|i: int| 0 <= i < self.modules@.len() ==> abi_wf(self.modules@[i].abi@)
    }
}

impl View for LedgerState {
    type V = StateView;

    open spec fn view(&self) -> StateView {
        StateView {
            modules: assoc_map(self.mpairs()),
            resources: assoc_map(self.rpairs()),
            balances: assoc_map(self.bpairs()),
        }
    }
}

/// Every ABI held in a well-formed state's view is well formed.
pub proof fn lemma_state_abis_wf(s: LedgerState, k: (int, Seq<u8>))
    requires
        s.wf(),
        s@.modules.contains_key(k),
    ensures
        abi_wf(s@.modules[k].abi),
{
    lemma_assoc_contains(s.mpairs(), k);
    let i = choose|i: int|
        0 <= i < s.mpairs().len() && s.mpairs()[i].0 == k && s.mpairs()[i].1 == assoc_map(
            s.mpairs(),
        )[k];
    assert(s.mpairs()[i].1 == mrec(s.modules@[i]));
}

impl LedgerState {
    /// A state with empty tables.
    pub fn empty() -> (r: LedgerState)
        ensures
            r.wf(),
            r@.modules == Map::<(int, Seq<u8>), ModuleRecView>::empty(),
            r@.resources == Map::<(int, Seq<u8>), Seq<u8>>::empty(),
            r@.balances == Map::<int, u64>::empty(),
    {
        let r = LedgerState { modules: Vec::new(), resources: Vec::new(), balances: Vec::new() };
        proof {
            assert(r.mpairs() =~= Seq::<((int, Seq<u8>), ModuleRecView)>::empty());
            assert(r.rpairs() =~= Seq::<((int, Seq<u8>), Seq<u8>)>::empty());
            assert(r.bpairs() =~= Seq::<(int, u64)>::empty());
        }
        r
    }

    /// Index of the module-table row with the given key, if any.
    fn find_module_index(&self, addr: MoveAddress, name: &Vec<u8>) -> (r: Option<usize>)
        ensures
            (r matches Some(i) ==> i < self.modules@.len() && mkey(self.modules@[i as int]) == (
                addr.value as int,
                name@,
            )),
            (r is None ==> forall|i: int|
                0 <= i < self.modules@.len() ==> mkey(self.modules@[i]) != (
                    addr.value as int,
                    name@,
                )),
    {
        let mut i: usize = 0;
        while i < self.modules.len()
            invariant
                0 <= i <= self.modules@.len(),
                forall|j: int|
                    0 <= j < i ==> mkey(self.modules@[j]) != (addr.value as int, name@),
            decreases self.modules@.len() - i,
        {
            let e = &self.modules[i];
            if e.addr.value == addr.value && bytes_equal(&e.name, name) {
                return Some(i);
            }
            i = i + 1;
        }
        None
    }

    /// Index of the resource-table row with the given key, if any.
    fn find_resource_index(&self, addr: MoveAddress, tag: &Vec<u8>) -> (r: Option<usize>)
        ensures
            (r matches Some(i) ==> i < self.resources@.len() && (
                self.resources@[i as int].addr.value as int,
                self.resources@[i as int].tag@,
            ) == (addr.value as int, tag@)),
            (r is None ==> forall|i: int|
                0 <= i < self.resources@.len() ==> (
                    self.resources@[i].addr.value as int,
                    self.resources@[i].tag@,
                ) != (addr.value as int, tag@)),
    {
        let mut i: usize = 0;
        while i < self.resources.len()
            invariant
                0 <= i <= self.resources@.len(),
                forall|j: int|
                    0 <= j < i ==> (
                        self.resources@[j].addr.value as int,
                        self.resources@[j].tag@,
                    ) != (addr.value as int, tag@),
            decreases self.resources@.len() - i,
        {
            let e = &self.resources[i];
            if e.addr.value == addr.value && bytes_equal(&e.tag, tag) {
                return Some(i);
            }
            i = i + 1;
        }
        None
    }

    /// Index of the balance-table row of the given account, if any.
    fn find_balance_index(&self, account: AccountId) -> (r: Option<usize>)
        ensures
            (r matches Some(i) ==> i < self.balances@.len()
                && self.balances@[i as int].account.value == account.value),
            (r is None ==> forall|i: int|
                0 <= i < self.balances@.len() ==> self.balances@[i].account.value
                    != account.value),
    {
        let mut i: usize = 0;
        while i < self.balances.len()
            invariant
                0 <= i <= self.balances@.len(),
                forall|j: int| 0 <= j < i ==> self.balances@[j].account.value != account.value,
            decreases self.balances@.len() - i,
        {
            if self.balances[i].account.value == account.value {
                return Some(i);
            }
            i = i + 1;
        }
        None
    }

    /// Reads the module stored under (address, name) in committed state.
    /// Pure relative to the given state.
    pub fn read_module(&self, addr: MoveAddress, name: &Vec<u8>) -> (r: Option<&ModuleEntry>)
        requires
            self.wf(),
        ensures
            (r matches Some(e) ==> self@.modules.contains_key((addr.value as int, name@))
                && self@.modules[(addr.value as int, name@)] == mrec(*e) && mkey(*e) == (
                addr.value as int,
                name@,
            )),
            (r is None ==> !self@.modules.contains_key((addr.value as int, name@))),
    {
        match self.find_module_index(addr, name) {
            Some(i) => {
                proof {
                    lemma_assoc_index(self.mpairs(), i as int);
                }
                Some(&self.modules[i])
            },
            None => {
                proof {
                    lemma_assoc_absent(self.mpairs(), (addr.value as int, name@));
                }
                None
            },
        }
    }

    /// Reads the resource stored under (address, type tag) in committed
    /// state.  Pure relative to the given state.
    pub fn read_resource(&self, addr: MoveAddress, tag: &Vec<u8>) -> (r: Option<&Vec<u8>>)
        requires
            self.wf(),
        ensures
            (r matches Some(d) ==> self@.resources.contains_key((addr.value as int, tag@))
                && self@.resources[(addr.value as int, tag@)] == d@),
            (r is None ==> !self@.resources.contains_key((addr.value as int, tag@))),
    {
        match self.find_resource_index(addr, tag) {
            Some(i) => {
                proof {
                    lemma_assoc_index(self.rpairs(), i as int);
                }
                Some(&self.resources[i].data)
            },
            None => {
                proof {
                    lemma_assoc_absent(self.rpairs(), (addr.value as int, tag@));
                }
                None
            },
        }
    }

    /// The balance of an account, zero when it holds no row.
    pub fn balance_of(&self, account: AccountId) -> (r: u64)
        requires
            self.wf(),
        ensures
            r == spec_balance(self@, account.value as int),
    {
        match self.find_balance_index(account) {
            Some(i) => {
                proof {
                    lemma_assoc_index(self.bpairs(), i as int);
                }
                self.balances[i].amount
            },
            None => {
                proof {
                    lemma_assoc_absent(self.bpairs(), account.value as int);
                }
                0
            },
        }
    }
}

impl LedgerState {
    /// Whether the state is well formed; for callers outside the verified
    /// world, who cannot evaluate `wf` directly.
    pub fn check_wf(&self) -> (r: bool)
        ensures
            r == self.wf(),
    {
        // Module keys pairwise distinct.
        let mut a: usize = 0;
        while a < self.modules.len()
            invariant
                0 <= a <= self.modules@.len(),
                forall|x: int, y: int|
                    0 <= x < y < self.modules@.len() && x < a ==> mkey(
                        #[trigger] self.modules@[x],
                    ) != mkey(#[trigger] self.modules@[y]),
            decreases self.modules@.len() - a,
        {
            let mut b2: usize = a + 1;
            while b2 < self.modules.len()
                invariant
                    0 <= a < b2 <= self.modules@.len(),
                    forall|x: int, y: int|
                        0 <= x < y < self.modules@.len() && x < a ==> mkey(
                            #[trigger] self.modules@[x],
                        ) != mkey(#[trigger] self.modules@[y]),
                    forall|y: int|
                        a < y < b2 ==> mkey(self.modules@[a as int]) != mkey(
                            #[trigger] self.modules@[y],
                        ),
                decreases self.modules@.len() - b2,
            {
                let same_addr = self.modules[a].addr.value == self.modules[b2].addr.value;
                if same_addr && bytes_equal(&self.modules[a].name, &self.modules[b2].name) {
                    proof {
                        assert(self.mpairs()[a as int].0 == self.mpairs()[b2 as int].0);
                        assert(!nodup_keys(self.mpairs()));
                    }
                    return false;
                }
                b2 = b2 + 1;
            }
            a = a + 1;
        }
        proof {
            assert(nodup_keys(self.mpairs())) by {
                assert forall|x: int, y: int|
                    0 <= x < y < self.mpairs().len() implies self.mpairs()[x].0
                    != self.mpairs()[y].0 by {
                    assert(self.mpairs()[x].0 == mkey(self.modules@[x]));
                    assert(self.mpairs()[y].0 == mkey(self.modules@[y]));
                };
            };
        }
        // Resource keys pairwise distinct.
        let mut a: usize = 0;
        while a < self.resources.len()
            invariant
                0 <= a <= self.resources@.len(),
                forall|x: int, y: int|
                    0 <= x < y < self.resources@.len() && x < a ==> (
                        (#[trigger] self.resources@[x]).addr.value as int,
                        self.resources@[x].tag@,
                    ) != ((#[trigger] self.resources@[y]).addr.value as int, self.resources@[y].tag@),
            decreases self.resources@.len() - a,
        {
            let mut b2: usize = a + 1;
            while b2 < self.resources.len()
                invariant
                    0 <= a < b2 <= self.resources@.len(),
                    forall|x: int, y: int|
                        0 <= x < y < self.resources@.len() && x < a ==> (
                            (#[trigger] self.resources@[x]).addr.value as int,
                            self.resources@[x].tag@,
                        ) != (
                            (#[trigger] self.resources@[y]).addr.value as int,
                            self.resources@[y].tag@,
                        ),
                    forall|y: int|
                        a < y < b2 ==> (
                            self.resources@[a as int].addr.value as int,
                            self.resources@[a as int].tag@,
                        ) != (
                            (#[trigger] self.resources@[y]).addr.value as int,
                            self.resources@[y].tag@,
                        ),
                decreases self.resources@.len() - b2,
            {
                let same_addr = self.resources[a].addr.value == self.resources[b2].addr.value;
                if same_addr && bytes_equal(&self.resources[a].tag, &self.resources[b2].tag) {
                    proof {
                        assert(self.rpairs()[a as int].0 == self.rpairs()[b2 as int].0);
                        assert(!nodup_keys(self.rpairs()));
                    }
                    return false;
                }
                b2 = b2 + 1;
            }
            a = a + 1;
        }
        proof {
            assert(nodup_keys(self.rpairs())) by {
                assert forall|x: int, y: int|
                    0 <= x < y < self.rpairs().len() implies self.rpairs()[x].0
                    != self.rpairs()[y].0 by {
                    assert(self.rpairs()[x].0 == (
                        self.resources@[x].addr.value as int,
                        self.resources@[x].tag@,
                    ));
                    assert(self.rpairs()[y].0 == (
                        self.resources@[y].addr.value as int,
                        self.resources@[y].tag@,
                    ));
                };
            };
        }
        // Balance rows keyed by distinct accounts.
        let mut a: usize = 0;
        while a < self.balances.len()
            invariant
                0 <= a <= self.balances@.len(),
                forall|x: int, y: int|
                    0 <= x < y < self.balances@.len() && x < a
                        ==> (#[trigger] self.balances@[x]).account.value
                        != (#[trigger] self.balances@[y]).account.value,
            decreases self.balances@.len() - a,
        {
            let mut b2: usize = a + 1;
            while b2 < self.balances.len()
                invariant
                    0 <= a < b2 <= self.balances@.len(),
                    forall|x: int, y: int|
                        0 <= x < y < self.balances@.len() && x < a
                            ==> (#[trigger] self.balances@[x]).account.value
                            != (#[trigger] self.balances@[y]).account.value,
                    forall|y: int|
                        a < y < b2 ==> self.balances@[a as int].account.value
                            != (#[trigger] self.balances@[y]).account.value,
                decreases self.balances@.len() - b2,
            {
                if self.balances[a].account.value == self.balances[b2].account.value {
                    proof {
                        assert(self.bpairs()[a as int].0 == self.bpairs()[b2 as int].0);
                        assert(!nodup_keys(self.bpairs()));
                    }
                    return false;
                }
                b2 = b2 + 1;
            }
            a = a + 1;
        }
        proof {
            assert(nodup_keys(self.bpairs())) by {
                assert forall|x: int, y: int|
                    0 <= x < y < self.bpairs().len() implies self.bpairs()[x].0
                    != self.bpairs()[y].0 by {
                    assert(self.bpairs()[x].0 == self.balances@[x].account.value as int);
                    assert(self.bpairs()[y].0 == self.balances@[y].account.value as int);
                };
            };
        }
        // Every stored ABI well formed.
        let mut i: usize = 0;
        while i < self.modules.len()
            invariant
                0 <= i <= self.modules@.len(),
                nodup_keys(self.mpairs()),
                nodup_keys(self.rpairs()),
                nodup_keys(self.bpairs()),
                forall|k: int| 0 <= k < i ==> abi_wf((#[trigger] self.modules@[k]).abi@),
            decreases self.modules@.len() - i,
        {
            let e = &self.modules[i];
            let fs_ok = crate::codec::fn_names_unique(&e.abi.functions);
            let ls_ok = crate::codec::layout_names_unique(&e.abi.structs);
            if !fs_ok {
                proof {
                    let (x, y) = choose|x: int, y: int|
                        0 <= x < y < e.abi.functions@.len() && e.abi.functions@[x].name@
                            == e.abi.functions@[y].name@;
                    assert(e.abi@.functions[x].name == e.abi@.functions[y].name);
                    assert(!abi_wf(self.modules@[i as int].abi@));
                }
                return false;
            }
            if !ls_ok {
                proof {
                    let (x, y) = choose|x: int, y: int|
                        0 <= x < y < e.abi.structs@.len() && e.abi.structs@[x].name@
                            == e.abi.structs@[y].name@;
                    assert(e.abi@.structs[x].name == e.abi@.structs[y].name);
                    assert(!abi_wf(self.modules@[i as int].abi@));
                }
                return false;
            }
            proof {
                assert(abi_wf(self.modules@[i as int].abi@));
            }
            i = i + 1;
        }
        true
    }
}

/// One staged write or delete produced by an invocation.
#[derive(Clone, Debug)]
pub enum Change {
    /// Create or replace the module at the entry's identity.
    WriteModule { entry: ModuleEntry },
    /// Create or replace the resource at (address, tag).
    WriteResource { addr: MoveAddress, tag: Vec<u8>, data: Vec<u8> },
    /// Delete the resource at (address, tag).
    DeleteResource { addr: MoveAddress, tag: Vec<u8> },
}

/// Mathematical view of a staged change.
#[verifier::ext_equal]
pub enum ChangeView {
    WriteModule { key: (int, Seq<u8>), rec: ModuleRecView },
    WriteResource { key: (int, Seq<u8>), data: Seq<u8> },
    DeleteResource { key: (int, Seq<u8>) },
}

impl View for Change {
    type V = ChangeView;

    open spec fn view(&self) -> ChangeView {
        match self {
            Change::WriteModule { entry } => ChangeView::WriteModule {
                key: mkey(*entry),
                rec: mrec(*entry),
            },
            Change::WriteResource { addr, tag, data } => ChangeView::WriteResource {
                key: (addr.value as int, tag@),
                data: data@,
            },
            Change::DeleteResource { addr, tag } => ChangeView::DeleteResource {
                key: (addr.value as int, tag@),
            },
        }
    }
}

/// The complete set of writes and deletes produced by one invocation, held
/// detached from committed state until a single commit step.
#[derive(Clone, Debug)]
pub struct EffectSet {
    pub changes: Vec<Change>,
}

impl View for EffectSet {
    type V = Seq<ChangeView>;

    open spec fn view(&self) -> Seq<ChangeView> {
        self.changes@.map_values(|c: Change| c@)
    }
}

impl EffectSet {
    /// An effect set with nothing staged.
    pub fn new() -> (r: EffectSet)
        ensures
            r@ == Seq::<ChangeView>::empty(),
    {
        let r = EffectSet { changes: Vec::new() };
        proof {
            assert(r@ =~= Seq::<ChangeView>::empty());
        }
        r
    }

    /// Stages one more change; nothing is observable until commit.
    pub fn stage(&mut self, change: Change)
        ensures
            final(self)@ == old(self)@.push(change@),
    {
        self.changes.push(change);
        proof {
            assert(self@ =~= old(self)@.push(change@));
        }
    }
}

/// The state a single staged change leaves behind.
pub open spec fn apply_change(v: StateView, c: ChangeView) -> StateView {
    match c {
        ChangeView::WriteModule { key, rec } => StateView {
            modules: v.modules.insert(key, rec),
            ..v
        },
        ChangeView::WriteResource { key, data } => StateView {
            resources: v.resources.insert(key, data),
            ..v
        },
        ChangeView::DeleteResource { key } => StateView {
            resources: v.resources.remove(key),
            ..v
        },
    }
}

/// The state an effect set leaves behind when every change is applied in
/// order.
pub open spec fn apply_effects(v: StateView, s: Seq<ChangeView>) -> StateView
    decreases s.len(),
{
    if s.len() == 0 {
        v
    } else {
        apply_change(apply_effects(v, s.drop_last()), s.last())
    }
}

/// Every module written by the effect set carries a well-formed ABI.
pub open spec fn effects_wf(s: Seq<ChangeView>) -> bool {
    forall|i: int|
        0 <= i < s.len() ==> (#[trigger] s[i] matches ChangeView::WriteModule { key, rec }
            ==> abi_wf(rec.abi))
}

/// The effect set writes no module.
pub open spec fn effects_module_free(s: Seq<ChangeView>) -> bool {
    forall|i: int| 0 <= i < s.len() ==> !(s[i] is WriteModule)
}

/// Applying a module-free effect set never touches the module table or the
/// balances.
pub proof fn lemma_module_free_effects(v: StateView, s: Seq<ChangeView>)
    requires
        effects_module_free(s),
    ensures
        apply_effects(v, s).modules == v.modules,
        apply_effects(v, s).balances == v.balances,
    decreases s.len(),
{
    if s.len() > 0 {
        lemma_module_free_effects(v, s.drop_last());
    }
}

impl LedgerState {
    /// Creates or replaces the module at the entry's identity.
    pub fn set_module(&mut self, entry: ModuleEntry)
        requires
            old(self).wf(),
            abi_wf(entry.abi@),
        ensures
            final(self).wf(),
            final(self)@.modules == old(self)@.modules.insert(mkey(entry), mrec(entry)),
            final(self)@.resources == old(self)@.resources,
            final(self)@.balances == old(self)@.balances,
    {
        let ghost k = mkey(entry);
        let ghost oldpairs = self.mpairs();
        match self.find_module_index(entry.addr, &entry.name) {
            Some(i) => {
                proof {
                    assert(oldpairs[i as int].0 == k);
                }
                self.modules.set(i, entry);
                proof {
                    assert(self.mpairs() =~= oldpairs.update(i as int, (k, mrec(entry))));
                    lemma_assoc_update(oldpairs, i as int, mrec(entry));
                    assert(self.rpairs() =~= old(self).rpairs());
                    assert(self.bpairs() =~= old(self).bpairs());
                }
            },
            None => {
                self.modules.push(entry);
                proof {
                    assert(self.mpairs() =~= oldpairs.push((k, mrec(entry))));
                    lemma_assoc_push(oldpairs, k, mrec(entry));
                    lemma_assoc_absent(oldpairs, k);
                    assert(self.rpairs() =~= old(self).rpairs());
                    assert(self.bpairs() =~= old(self).bpairs());
                }
            },
        }
    }

    /// Creates or replaces the resource at (address, tag).
    pub fn set_resource(&mut self, addr: MoveAddress, tag: Vec<u8>, data: Vec<u8>)
        requires
            old(self).wf(),
        ensures
            final(self).wf(),
            final(self)@.modules == old(self)@.modules,
            final(self)@.resources == old(self)@.resources.insert(
                (addr.value as int, tag@),
                data@,
            ),
            final(self)@.balances == old(self)@.balances,
    {
        let ghost k = (addr.value as int, tag@);
        let ghost oldpairs = self.rpairs();
        match self.find_resource_index(addr, &tag) {
            Some(i) => {
                self.resources.set(i, ResourceEntry { addr, tag, data });
                proof {
                    assert(self.rpairs() =~= oldpairs.update(i as int, (k, data@)));
                    lemma_assoc_update(oldpairs, i as int, data@);
                    assert(self.mpairs() =~= old(self).mpairs());
                    assert(self.bpairs() =~= old(self).bpairs());
                }
            },
            None => {
                self.resources.push(ResourceEntry { addr, tag, data });
                proof {
                    assert(self.rpairs() =~= oldpairs.push((k, data@)));
                    lemma_assoc_push(oldpairs, k, data@);
                    lemma_assoc_absent(oldpairs, k);
                    assert(self.mpairs() =~= old(self).mpairs());
                    assert(self.bpairs() =~= old(self).bpairs());
                }
            },
        }
    }

    /// Deletes the resource at (address, tag); deleting an absent resource
    /// changes nothing.
    pub fn delete_resource(&mut self, addr: MoveAddress, tag: &Vec<u8>)
        requires
            old(self).wf(),
        ensures
            final(self).wf(),
            final(self)@.modules == old(self)@.modules,
            final(self)@.resources == old(self)@.resources.remove((addr.value as int, tag@)),
            final(self)@.balances == old(self)@.balances,
    {
        let ghost k = (addr.value as int, tag@);
        let ghost oldpairs = self.rpairs();
        match self.find_resource_index(addr, tag) {
            Some(i) => {
                self.resources.remove(i);
                proof {
                    assert(self.rpairs() =~= oldpairs.remove(i as int));
                    lemma_assoc_remove(oldpairs, i as int);
                    lemma_nodup_remove(oldpairs, i as int);
                    assert(self.mpairs() =~= old(self).mpairs());
                    assert(self.bpairs() =~= old(self).bpairs());
                }
            },
            None => {
                proof {
                    lemma_assoc_absent(oldpairs, k);
                    assert(old(self)@.resources.remove(k) =~= old(self)@.resources);
                }
            },
        }
    }

    /// Sets the balance row of an account.
    pub fn set_balance(&mut self, account: AccountId, amount: u64)
        requires
            old(self).wf(),
        ensures
            final(self).wf(),
            final(self)@.modules == old(self)@.modules,
            final(self)@.resources == old(self)@.resources,
            final(self)@.balances == old(self)@.balances.insert(account.value as int, amount),
    {
        let ghost k = account.value as int;
        let ghost oldpairs = self.bpairs();
        match self.find_balance_index(account) {
            Some(i) => {
                self.balances.set(i, BalanceEntry { account, amount });
                proof {
                    assert(self.bpairs() =~= oldpairs.update(i as int, (k, amount)));
                    lemma_assoc_update(oldpairs, i as int, amount);
                    assert(self.mpairs() =~= old(self).mpairs());
                    assert(self.rpairs() =~= old(self).rpairs());
                }
            },
            None => {
                self.balances.push(BalanceEntry { account, amount });
                proof {
                    assert(self.bpairs() =~= oldpairs.push((k, amount)));
                    lemma_assoc_push(oldpairs, k, amount);
                    lemma_assoc_absent(oldpairs, k);
                    assert(self.mpairs() =~= old(self).mpairs());
                    assert(self.rpairs() =~= old(self).rpairs());
                }
            },
        }
    }

    /// Commits a staged effect set: applies every change, in order, as one
    /// indivisible step.  A caller that never reaches this call leaves no
    /// observable storage effect.
    pub fn commit(&mut self, effects: EffectSet)
        requires
            old(self).wf(),
            effects_wf(effects@),
        ensures
            final(self).wf(),
            final(self)@ == apply_effects(old(self)@, effects@),
    {
        let ghost all = effects@;
        let mut changes = effects.changes;
        proof {
            assert(changes@.map_values(|c: Change| c@) =~= all.skip(0));
        }
        while changes.len() > 0
            invariant
                self.wf(),
                effects_wf(all),
                changes@.len() <= all.len(),
                changes@.map_values(|c: Change| c@) =~= all.skip(
                    all.len() - changes@.len(),
                ),
                self@ == apply_effects(old(self)@, all.take(all.len() - changes@.len())),
            decreases changes@.len(),
        {
            let ghost k = all.len() - changes@.len();
            let ghost before = changes@;
            let c = changes.remove(0);
            proof {
                assert(before.map_values(|c: Change| c@)[0] == c@);
                assert(c@ == all[k as int]);
                assert forall|j: int| 0 <= j < changes@.len() implies (#[trigger] changes@[j])@
                    == all[k as int + 1 + j] by {
                    assert(changes@[j] == before[j + 1]);
                    assert(before.map_values(|c: Change| c@)[j + 1] == all.skip(k as int)[j
                        + 1]);
                };
                assert(changes@.map_values(|c: Change| c@) =~= all.skip(k as int + 1));
                assert(all.take(k as int + 1).drop_last() =~= all.take(k as int));
                assert(all.take(k as int + 1).last() == all[k as int]);
            }
            let ghost pre = self@;
            match c {
                Change::WriteModule { entry } => {
                    proof {
                        assert(all[k as int] matches ChangeView::WriteModule { key, rec }
                            ==> abi_wf(rec.abi));
                        assert(mrec(entry).abi == entry.abi@);
                    }
                    self.set_module(entry);
                },
                Change::WriteResource { addr, tag, data } => {
                    self.set_resource(addr, tag, data);
                },
                Change::DeleteResource { addr, tag } => {
                    self.delete_resource(addr, &tag);
                },
            }
            proof {
                assert(self@ =~= apply_change(pre, all[k as int]));
                assert(self@ =~= apply_effects(old(self)@, all.take(k as int + 1)));
            }
        }
        proof {
            assert(all.take(all.len() as int) =~= all);
        }
    }

    /// Whether a transfer of `amount` from `from` to `to` can be paid: the
    /// sender holds the amount and the recipient's balance cannot overflow.
    pub open spec fn spec_can_transfer(v: StateView, from: int, to: int, amount: u64) -> bool {
        spec_balance(v, from) >= amount && (from == to || spec_balance(v, to) + amount
            <= u64::MAX)
    }

    /// The balances after a transfer of `amount` from `from` to `to`.
    pub open spec fn spec_transfer(v: StateView, from: int, to: int, amount: u64) -> StateView {
        if from == to {
            v
        } else {
            StateView {
                balances: v.balances.insert(from, (spec_balance(v, from) - amount) as u64).insert(
                    to,
                    (spec_balance(v, to) + amount) as u64,
                ),
                ..v
            }
        }
    }

    /// Transfers `amount` from `from` to `to` when it can be paid; otherwise
    /// changes nothing and reports failure.
    pub fn try_transfer(&mut self, from: AccountId, to: AccountId, amount: u64) -> (r: bool)
        requires
            old(self).wf(),
        ensures
            final(self).wf(),
            r == LedgerState::spec_can_transfer(
                old(self)@,
                from.value as int,
                to.value as int,
                amount,
            ),
            r ==> final(self)@ == LedgerState::spec_transfer(
                old(self)@,
                from.value as int,
                to.value as int,
                amount,
            ),
            !r ==> final(self)@ == old(self)@,
    {
        let from_balance = self.balance_of(from);
        if from_balance < amount {
            return false;
        }
        if from.value == to.value {
            return true;
        }
        let to_balance = self.balance_of(to);
        if to_balance > u64::MAX - amount {
            return false;
        }
        self.set_balance(from, from_balance - amount);
        let ghost mid = self@;
        self.set_balance(to, to_balance + amount);
        proof {
            assert(spec_balance(mid, to.value as int) == to_balance);
            assert(self@ =~= LedgerState::spec_transfer(
                old(self)@,
                from.value as int,
                to.value as int,
                amount,
            ));
        }
        true
    }
}

} // verus!
