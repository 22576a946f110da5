//! The reconciliation engine: computes effective states, decides whether
//! an apply is necessary, performs the catalog and activation-set
//! transitions of the enable / disable / reset / rebuild protocols, and
//! folds an apply outcome back into the catalog.
//!
//! The engine works on loaded state; reading and writing the persisted
//! artifacts and invoking the external applier are the caller's concern.
//! A mutating operation returns whether the apply step must run; the
//! caller then renders and persists the descriptor, invokes the applier,
//! and hands the outcome to `commit_apply`.

use vstd::prelude::*;

use crate::active::{
    add_all_names, lemma_add_all_unchanged, lemma_remove_all_unlisted, remove_all_names,
    ModuleFile,
};
use crate::registry::{
    confirm_spec, distinct_module_names, has_module, idx_of, lemma_idx_of,
    lemma_lookup_same_names, mark_spec, stored_state, ModuleRegistry,
};
use crate::state::{Module, ModuleState, ModuleStatus};

verus! {

/// A module's externally observable state: an unresolved prior apply
/// outranks the desired-state signal until explicitly confirmed; short of
/// that, activation-set membership decides.
pub open spec fn effective_of(ms: Seq<Module>, active: Seq<Seq<char>>, n: Seq<char>) -> ModuleState {
    if stored_state(ms, n) is Uncertain {
        ModuleState::Uncertain
    } else if active.contains(n) {
        ModuleState::Enabled
    } else {
        ModuleState::Disabled
    }
}

/// What the enable protocol does to the catalog: a requested module whose
/// effective state was `Disabled` is optimistically marked `Uncertain`;
/// everything else keeps its state.
pub open spec fn enable_registry_spec(
    ms: Seq<Module>,
    active: Seq<Seq<char>>,
    reqs: Seq<Seq<char>>,
) -> Seq<Module> {
    Seq::new(
        ms.len(),
        |i: int|
            if reqs.contains(ms[i].name@) && effective_of(ms, active, ms[i].name@) is Disabled {
                (Module { state: ModuleState::Uncertain, ..ms[i] })
            } else {
                ms[i]
            },
    )
}

/// Whether an enable request changes anything: it does exactly when some
/// requested module is not already effectively `Enabled`.
pub open spec fn enable_changed(ms: Seq<Module>, active: Seq<Seq<char>>, reqs: Seq<Seq<char>>) -> bool {
    exists|j: int|
        0 <= j < reqs.len() && !(effective_of(ms, active, #[trigger] reqs[j]) is Enabled)
}

/// What the disable protocol does to the catalog: a requested module
/// whose effective state was `Enabled` is marked `Uncertain`; everything
/// else keeps its state.
pub open spec fn disable_registry_spec(
    ms: Seq<Module>,
    active: Seq<Seq<char>>,
    reqs: Seq<Seq<char>>,
) -> Seq<Module> {
    Seq::new(
        ms.len(),
        |i: int|
            if reqs.contains(ms[i].name@) && effective_of(ms, active, ms[i].name@) is Enabled {
                (Module { state: ModuleState::Uncertain, ..ms[i] })
            } else {
                ms[i]
            },
    )
}

/// Whether a disable request changes anything: it does exactly when some
/// requested module is not already effectively `Disabled`.
pub open spec fn disable_changed(ms: Seq<Module>, active: Seq<Seq<char>>, reqs: Seq<Seq<char>>) -> bool {
    exists|j: int|
        0 <= j < reqs.len() && !(effective_of(ms, active, #[trigger] reqs[j]) is Disabled)
}

/// Extending a request prefix by one name extends what it contains by
/// exactly that name.
proof fn lemma_take_snoc_contains(s: Seq<Seq<char>>, j: int, x: Seq<char>)
    requires
        0 <= j < s.len(),
    ensures
        s.take(j + 1).contains(x) <==> (s.take(j).contains(x) || s[j] == x),
{
    if s.take(j + 1).contains(x) {
        let i = choose|i: int| 0 <= i < j + 1 && #[trigger] s.take(j + 1)[i] == x;
        if i < j {
            assert(s.take(j)[i] == x);
        }
    }
    if s.take(j).contains(x) {
        let i = choose|i: int| 0 <= i < j && #[trigger] s.take(j)[i] == x;
        assert(s.take(j + 1)[i] == x);
    }
    assert(s.take(j + 1)[j] == s[j]);
}

/// What the optimistic enable marking does to a stored state: only a
/// known, requested module whose effective state was `Disabled` moves,
/// and it moves to `Uncertain`.
proof fn lemma_enable_stored(
    ms: Seq<Module>,
    act: Seq<Seq<char>>,
    rs: Seq<Seq<char>>,
    n: Seq<char>,
)
    ensures
        stored_state(enable_registry_spec(ms, act, rs), n) == (if has_module(ms, n)
            && rs.contains(n) && effective_of(ms, act, n) is Disabled {
            ModuleState::Uncertain
        } else {
            stored_state(ms, n)
        }),
{
    let cur = enable_registry_spec(ms, act, rs);
    assert(forall|i: int| 0 <= i < ms.len() ==> #[trigger] cur[i].name@ == ms[i].name@);
    lemma_lookup_same_names(ms, cur);
    lemma_idx_of(ms, n);
    if has_module(ms, n) {
        let i = idx_of(ms, n);
        assert(ms[i].name@ == n);
        assert(cur[i] == if rs.contains(n) && effective_of(ms, act, n) is Disabled {
            (Module { state: ModuleState::Uncertain, ..ms[i] })
        } else {
            ms[i]
        });
    }
}

/// How the optimistic enable marking shows through the effective state.
proof fn lemma_enable_effective(
    ms: Seq<Module>,
    act: Seq<Seq<char>>,
    rs: Seq<Seq<char>>,
    n: Seq<char>,
)
    ensures
        effective_of(enable_registry_spec(ms, act, rs), act, n) == (if has_module(ms, n)
            && rs.contains(n) && effective_of(ms, act, n) is Disabled {
            ModuleState::Uncertain
        } else {
            effective_of(ms, act, n)
        }),
{
    lemma_enable_stored(ms, act, rs, n);
}

/// Processing a request name that triggers no new catalog transition
/// leaves the enable transform where it was.
proof fn lemma_enable_spec_stable(
    ms: Seq<Module>,
    act: Seq<Seq<char>>,
    reqs: Seq<Seq<char>>,
    j: int,
)
    requires
        0 <= j < reqs.len(),
        !(has_module(ms, reqs[j]) && effective_of(ms, act, reqs[j]) is Disabled
            && !reqs.take(j).contains(reqs[j])),
    ensures
        enable_registry_spec(ms, act, reqs.take(j + 1)) == enable_registry_spec(
            ms,
            act,
            reqs.take(j),
        ),
{
    assert forall|i: int|
        0 <= i < ms.len() implies enable_registry_spec(ms, act, reqs.take(j + 1))[i]
        == enable_registry_spec(ms, act, reqs.take(j))[i] by {
        lemma_take_snoc_contains(reqs, j, ms[i].name@);
        if ms[i].name@ == reqs[j] {
            assert(has_module(ms, reqs[j]));
        }
    }
    assert(enable_registry_spec(ms, act, reqs.take(j + 1)) =~= enable_registry_spec(
        ms,
        act,
        reqs.take(j),
    ));
}

/// Extending a request prefix by one name changes the enable decision by
/// exactly that name's effective state.
proof fn lemma_enable_changed_snoc(
    ms: Seq<Module>,
    act: Seq<Seq<char>>,
    reqs: Seq<Seq<char>>,
    j: int,
)
    requires
        0 <= j < reqs.len(),
    ensures
        enable_changed(ms, act, reqs.take(j + 1)) == (enable_changed(ms, act, reqs.take(j)) || !(
        effective_of(ms, act, reqs[j]) is Enabled)),
{
    if enable_changed(ms, act, reqs.take(j + 1)) {
        let k = choose|k: int|
            0 <= k < reqs.take(j + 1).len() && !(effective_of(
                ms,
                act,
                #[trigger] reqs.take(j + 1)[k],
            ) is Enabled);
        assert(reqs.take(j + 1)[k] == reqs[k]);
        if k < j {
            assert(reqs.take(j)[k] == reqs[k]);
            assert(enable_changed(ms, act, reqs.take(j)));
        }
    }
    if enable_changed(ms, act, reqs.take(j)) {
        let k = choose|k: int|
            0 <= k < reqs.take(j).len() && !(effective_of(
                ms,
                act,
                #[trigger] reqs.take(j)[k],
            ) is Enabled);
        assert(reqs.take(j + 1)[k] == reqs[k]);
        assert(enable_changed(ms, act, reqs.take(j + 1)));
    }
    if !(effective_of(ms, act, reqs[j]) is Enabled) {
        assert(reqs.take(j + 1)[j] == reqs[j]);
        assert(enable_changed(ms, act, reqs.take(j + 1)));
    }
}

/// What the disable marking does to a stored state: only a known,
/// requested module whose effective state was `Enabled` moves, and it
/// moves to `Uncertain`.
proof fn lemma_disable_stored(
    ms: Seq<Module>,
    act: Seq<Seq<char>>,
    rs: Seq<Seq<char>>,
    n: Seq<char>,
)
    ensures
        stored_state(disable_registry_spec(ms, act, rs), n) == (if has_module(ms, n)
            && rs.contains(n) && effective_of(ms, act, n) is Enabled {
            ModuleState::Uncertain
        } else {
            stored_state(ms, n)
        }),
{
    let cur = disable_registry_spec(ms, act, rs);
    assert(forall|i: int| 0 <= i < ms.len() ==> #[trigger] cur[i].name@ == ms[i].name@);
    lemma_lookup_same_names(ms, cur);
    lemma_idx_of(ms, n);
    if has_module(ms, n) {
        let i = idx_of(ms, n);
        assert(ms[i].name@ == n);
        assert(cur[i] == if rs.contains(n) && effective_of(ms, act, n) is Enabled {
            (Module { state: ModuleState::Uncertain, ..ms[i] })
        } else {
            ms[i]
        });
    }
}

/// How the disable marking shows through the effective state.
proof fn lemma_disable_effective(
    ms: Seq<Module>,
    act: Seq<Seq<char>>,
    rs: Seq<Seq<char>>,
    n: Seq<char>,
)
    ensures
        effective_of(disable_registry_spec(ms, act, rs), act, n) == (if has_module(ms, n)
            && rs.contains(n) && effective_of(ms, act, n) is Enabled {
            ModuleState::Uncertain
        } else {
            effective_of(ms, act, n)
        }),
{
    lemma_disable_stored(ms, act, rs, n);
}

/// Processing a request name that triggers no new catalog transition
/// leaves the disable transform where it was.
proof fn lemma_disable_spec_stable(
    ms: Seq<Module>,
    act: Seq<Seq<char>>,
    reqs: Seq<Seq<char>>,
    j: int,
)
    requires
        0 <= j < reqs.len(),
        !(has_module(ms, reqs[j]) && effective_of(ms, act, reqs[j]) is Enabled
            && !reqs.take(j).contains(reqs[j])),
    ensures
        disable_registry_spec(ms, act, reqs.take(j + 1)) == disable_registry_spec(
            ms,
            act,
            reqs.take(j),
        ),
{
    assert forall|i: int|
        0 <= i < ms.len() implies disable_registry_spec(ms, act, reqs.take(j + 1))[i]
        == disable_registry_spec(ms, act, reqs.take(j))[i] by {
        lemma_take_snoc_contains(reqs, j, ms[i].name@);
        if ms[i].name@ == reqs[j] {
            assert(has_module(ms, reqs[j]));
        }
    }
    assert(disable_registry_spec(ms, act, reqs.take(j + 1)) =~= disable_registry_spec(
        ms,
        act,
        reqs.take(j),
    ));
}

/// Extending a request prefix by one name changes the disable decision by
/// exactly that name's effective state.
proof fn lemma_disable_changed_snoc(
    ms: Seq<Module>,
    act: Seq<Seq<char>>,
    reqs: Seq<Seq<char>>,
    j: int,
)
    requires
        0 <= j < reqs.len(),
    ensures
        disable_changed(ms, act, reqs.take(j + 1)) == (disable_changed(ms, act, reqs.take(j))
            || !(effective_of(ms, act, reqs[j]) is Disabled)),
{
    if disable_changed(ms, act, reqs.take(j + 1)) {
        let k = choose|k: int|
            0 <= k < reqs.take(j + 1).len() && !(effective_of(
                ms,
                act,
                #[trigger] reqs.take(j + 1)[k],
            ) is Disabled);
        assert(reqs.take(j + 1)[k] == reqs[k]);
        if k < j {
            assert(reqs.take(j)[k] == reqs[k]);
            assert(disable_changed(ms, act, reqs.take(j)));
        }
    }
    if disable_changed(ms, act, reqs.take(j)) {
        let k = choose|k: int|
            0 <= k < reqs.take(j).len() && !(effective_of(
                ms,
                act,
                #[trigger] reqs.take(j)[k],
            ) is Disabled);
        assert(reqs.take(j + 1)[k] == reqs[k]);
        assert(disable_changed(ms, act, reqs.take(j + 1)));
    }
    if !(effective_of(ms, act, reqs[j]) is Disabled) {
        assert(reqs.take(j + 1)[j] == reqs[j]);
        assert(disable_changed(ms, act, reqs.take(j + 1)));
    }
}

/// The engine over one loaded catalog and activation set.
pub struct ModuleManager {
    pub registry: ModuleRegistry,
    pub module_file: ModuleFile,
}

impl ModuleManager {
    /// Both halves of the loaded state are well-formed.
    pub open spec fn wf(self) -> bool {
        self.registry.wf() && self.module_file.wf()
    }

    /// An engine over the given loaded state.
    pub fn new(registry: ModuleRegistry, module_file: ModuleFile) -> (r: Self)
        ensures
            r.registry == registry,
            r.module_file == module_file,
    {
        ModuleManager { registry, module_file }
    }

    /// The effective state of one module.
    pub fn effective_state(&self, module_name: &str) -> (r: ModuleState)
        requires
            self.wf(),
        ensures
            r == effective_of(
                self.registry.modules@,
                self.module_file.active_modules.deep_view(),
                module_name@,
            ),
    {
        let stored = self.registry.get_state(module_name);
        match stored {
            ModuleState::Uncertain => ModuleState::Uncertain,
            _ => {
                if self.module_file.is_module_enabled(module_name) {
                    ModuleState::Enabled
                } else {
                    ModuleState::Disabled
                }
            },
        }
    }

    /// True when every listed name is a known module.
    pub fn verify_modules_exist(&self, modules: &[String]) -> (r: bool)
        requires
            self.wf(),
        ensures
            r == forall|k: int|
                0 <= k < modules.deep_view().len() ==> has_module(
                    self.registry.modules@,
                    #[trigger] modules.deep_view()[k],
                ),
    {
        self.registry.verify_modules_exist(modules)
    }

    /// One status row per queried name, in query order: the name, its
    /// resolved path and description (empty for an unknown name), and its
    /// effective state.
    pub fn get_status(&self, modules: &[String]) -> (r: Vec<ModuleStatus>)
        requires
            self.wf(),
        ensures
            r@.len() == modules@.len(),
            forall|k: int|
                0 <= k < r@.len() ==> {
                    let n = modules.deep_view()[k];
                    let ms = self.registry.modules@;
                    &&& (#[trigger] r@[k]).name@ == n
                    &&& r@[k].state == effective_of(
                        ms,
                        self.module_file.active_modules.deep_view(),
                        n,
                    )
                    &&& r@[k].path@ == if has_module(ms, n) {
                        ms[idx_of(ms, n)].path@
                    } else {
                        Seq::<char>::empty()
                    }
                    &&& r@[k].desc@ == if has_module(ms, n) {
                        ms[idx_of(ms, n)].desc@
                    } else {
                        Seq::<char>::empty()
                    }
                },
    {
        let mut out: Vec<ModuleStatus> = Vec::new();
        let n = modules.len();
        for k in 0..n
            invariant
                n == modules.len(),
                self.wf(),
                out@.len() == k,
                forall|j: int|
                    0 <= j < k ==> {
                        let nm = modules.deep_view()[j];
                        let ms = self.registry.modules@;
                        &&& (#[trigger] out@[j]).name@ == nm
                        &&& out@[j].state == effective_of(
                            ms,
                            self.module_file.active_modules.deep_view(),
                            nm,
                        )
                        &&& out@[j].path@ == if has_module(ms, nm) {
                            ms[idx_of(ms, nm)].path@
                        } else {
                            Seq::<char>::empty()
                        }
                        &&& out@[j].desc@ == if has_module(ms, nm) {
                            ms[idx_of(ms, nm)].desc@
                        } else {
                            Seq::<char>::empty()
                        }
                    },
        {
            let state = self.effective_state(modules[k].as_str());
            let (path, desc) = match self.registry.lookup_index(modules[k].as_str()) {
                Some(i) => {
                    let m = &self.registry.modules[i];
                    (m.path.clone(), m.desc.clone())
                },
                None => (String::new(), String::new()),
            };
            let row = ModuleStatus { name: modules[k].clone(), path, desc, state };
            out.push(row);
            proof {
                assert(modules.deep_view()[k as int] == modules@[k as int]@);
            }
        }
        out
    }

    /// One status row per catalog entry, in catalog order, each with its
    /// effective state.
    pub fn get_all_status(&self) -> (r: Vec<ModuleStatus>)
        requires
            self.wf(),
        ensures
            r@.len() == self.registry.modules@.len(),
            forall|k: int|
                0 <= k < r@.len() ==> {
                    let ms = self.registry.modules@;
                    &&& (#[trigger] r@[k]).name@ == ms[k].name@
                    &&& r@[k].path@ == ms[k].path@
                    &&& r@[k].desc@ == ms[k].desc@
                    &&& r@[k].state == effective_of(
                        ms,
                        self.module_file.active_modules.deep_view(),
                        ms[k].name@,
                    )
                },
    {
        let mut out: Vec<ModuleStatus> = Vec::new();
        let n = self.registry.modules.len();
        for k in 0..n
            invariant
                n == self.registry.modules@.len(),
                self.wf(),
                out@.len() == k,
                forall|j: int|
                    0 <= j < k ==> {
                        let ms = self.registry.modules@;
                        &&& (#[trigger] out@[j]).name@ == ms[j].name@
                        &&& out@[j].path@ == ms[j].path@
                        &&& out@[j].desc@ == ms[j].desc@
                        &&& out@[j].state == effective_of(
                            ms,
                            self.module_file.active_modules.deep_view(),
                            ms[j].name@,
                        )
                    },
        {
            let state = self.effective_state(self.registry.modules[k].name.as_str());
            let m = &self.registry.modules[k];
            let row = ModuleStatus {
                name: m.name.clone(),
                path: m.path.clone(),
                desc: m.desc.clone(),
                state,
            };
            out.push(row);
        }
        out
    }

    /// The enable protocol, short of the apply step itself: every
    /// requested module whose effective state is `Disabled` is
    /// optimistically marked `Uncertain` in the catalog, and the
    /// requested names are added to the activation set. The first result
    /// reports whether any change occurred; the second says whether the
    /// apply step must run — exactly when something changed or the
    /// caller forced it.
    pub fn enable_modules(&mut self, modules: &[String], force: bool) -> (r: (bool, bool))
        requires
            old(self).wf(),
        ensures
            final(self).registry.modules@ == enable_registry_spec(
                old(self).registry.modules@,
                old(self).module_file.active_modules.deep_view(),
                modules.deep_view(),
            ),
            final(self).module_file.active_modules.deep_view() == add_all_names(
                old(self).module_file.active_modules.deep_view(),
                modules.deep_view(),
            ),
            final(self).module_file.content == old(self).module_file.content,
            final(self).registry.module_map == old(self).registry.module_map,
            final(self).wf(),
            r.0 == enable_changed(
                old(self).registry.modules@,
                old(self).module_file.active_modules.deep_view(),
                modules.deep_view(),
            ),
            r.1 == (r.0 || force),
    {
        let ghost ms0 = self.registry.modules@;
        let ghost act0 = self.module_file.active_modules.deep_view();
        let ghost reqs = modules.deep_view();
        let ghost mf0 = self.module_file;
        let ghost map0 = self.registry.module_map;
        let mut changed = false;
        let n = modules.len();
        proof {
            assert(reqs.take(0) =~= Seq::<Seq<char>>::empty());
            assert(self.registry.modules@ =~= enable_registry_spec(ms0, act0, reqs.take(0)));
        }
        for j in 0..n
            invariant
                n == modules.len(),
                reqs == modules.deep_view(),
                distinct_module_names(ms0),
                self.module_file == mf0,
                act0 == mf0.active_modules.deep_view(),
                self.registry.module_map == map0,
                self.registry.modules@ == enable_registry_spec(ms0, act0, reqs.take(j as int)),
                self.wf(),
                changed == enable_changed(ms0, act0, reqs.take(j as int)),
        {
            let ghost pre = reqs.take(j as int);
            let ghost cur = self.registry.modules@;
            let ghost nm = reqs[j as int];
            let eff = self.effective_state(modules[j].as_str());
            proof {
                assert(modules.deep_view()[j as int] == modules@[j as int]@);
                lemma_enable_effective(ms0, act0, pre, nm);
                assert(eff == effective_of(cur, act0, nm));
            }
            match eff {
                ModuleState::Enabled => {
                    proof {
                        assert(effective_of(ms0, act0, nm) is Enabled);
                        lemma_enable_spec_stable(ms0, act0, reqs, j as int);
                        lemma_enable_changed_snoc(ms0, act0, reqs, j as int);
                    }
                },
                ModuleState::Uncertain => {
                    changed = true;
                    proof {
                        assert(!(effective_of(ms0, act0, nm) is Enabled));
                        lemma_enable_spec_stable(ms0, act0, reqs, j as int);
                        lemma_enable_changed_snoc(ms0, act0, reqs, j as int);
                    }
                },
                ModuleState::Disabled => {
                    proof {
                        assert(effective_of(ms0, act0, nm) is Disabled);
                        assert(!(has_module(ms0, nm) && pre.contains(nm)));
                    }
                    let existed = self.registry.set_state(modules[j].as_str(), ModuleState::Uncertain);
                    changed = true;
                    proof {
                        lemma_lookup_same_names(ms0, cur);
                        lemma_enable_changed_snoc(ms0, act0, reqs, j as int);
                        if existed {
                            let i = idx_of(ms0, nm);
                            lemma_idx_of(ms0, nm);
                            assert(cur[i] == ms0[i]);
                            assert(self.registry.modules@ == cur.update(
                                i,
                                (Module { state: ModuleState::Uncertain, ..cur[i] }),
                            ));
                            assert forall|k: int|
                                0 <= k < ms0.len() implies self.registry.modules@[k]
                                == enable_registry_spec(ms0, act0, reqs.take(j + 1))[k] by {
                                lemma_take_snoc_contains(reqs, j as int, ms0[k].name@);
                                if k != i && ms0[k].name@ == nm {
                                    assert(ms0[i].name@ == nm);
                                    assert(false);
                                }
                            }
                            assert(self.registry.modules@ =~= enable_registry_spec(
                                ms0,
                                act0,
                                reqs.take(j + 1),
                            ));
                        } else {
                            assert forall|k: int|
                                0 <= k < ms0.len() implies enable_registry_spec(
                                ms0,
                                act0,
                                reqs.take(j + 1),
                            )[k] == cur[k] by {
                                lemma_take_snoc_contains(reqs, j as int, ms0[k].name@);
                                if ms0[k].name@ == nm {
                                    assert(has_module(ms0, nm));
                                }
                            }
                            assert(self.registry.modules@ =~= enable_registry_spec(
                                ms0,
                                act0,
                                reqs.take(j + 1),
                            ));
                        }
                    }
                },
            }
        }
        proof {
            assert(reqs.take(n as int) =~= reqs);
        }
        let added = self.module_file.enable_modules(modules);
        proof {
            if added && !changed {
                assert forall|k: int| 0 <= k < reqs.len() implies act0.contains(
                    #[trigger] reqs[k],
                ) by {
                    assert(effective_of(ms0, act0, reqs[k]) is Enabled);
                }
                lemma_add_all_unchanged(act0, reqs);
                assert(false);
            }
        }
        let did_change = changed || added;
        (did_change, did_change || force)
    }

    /// The disable protocol, short of the apply step itself: every
    /// requested module whose effective state is `Enabled` is marked
    /// `Uncertain` in the catalog, and the requested names are removed
    /// from the activation set. The first result reports whether any
    /// change occurred; the second says whether the apply step must run.
    pub fn disable_modules(&mut self, modules: &[String], force: bool) -> (r: (bool, bool))
        requires
            old(self).wf(),
        ensures
            final(self).registry.modules@ == disable_registry_spec(
                old(self).registry.modules@,
                old(self).module_file.active_modules.deep_view(),
                modules.deep_view(),
            ),
            final(self).module_file.active_modules.deep_view() == remove_all_names(
                old(self).module_file.active_modules.deep_view(),
                modules.deep_view(),
            ),
            final(self).module_file.content == old(self).module_file.content,
            final(self).registry.module_map == old(self).registry.module_map,
            final(self).wf(),
            r.0 == disable_changed(
                old(self).registry.modules@,
                old(self).module_file.active_modules.deep_view(),
                modules.deep_view(),
            ),
            r.1 == (r.0 || force),
    {
        let ghost ms0 = self.registry.modules@;
        let ghost act0 = self.module_file.active_modules.deep_view();
        let ghost reqs = modules.deep_view();
        let ghost mf0 = self.module_file;
        let ghost map0 = self.registry.module_map;
        let mut changed = false;
        let n = modules.len();
        proof {
            assert(reqs.take(0) =~= Seq::<Seq<char>>::empty());
            assert(self.registry.modules@ =~= disable_registry_spec(ms0, act0, reqs.take(0)));
        }
        for j in 0..n
            invariant
                n == modules.len(),
                reqs == modules.deep_view(),
                distinct_module_names(ms0),
                self.module_file == mf0,
                act0 == mf0.active_modules.deep_view(),
                self.registry.module_map == map0,
                self.registry.modules@ == disable_registry_spec(ms0, act0, reqs.take(j as int)),
                self.wf(),
                changed == disable_changed(ms0, act0, reqs.take(j as int)),
        {
            let ghost pre = reqs.take(j as int);
            let ghost cur = self.registry.modules@;
            let ghost nm = reqs[j as int];
            let eff = self.effective_state(modules[j].as_str());
            proof {
                assert(modules.deep_view()[j as int] == modules@[j as int]@);
                lemma_disable_effective(ms0, act0, pre, nm);
                assert(eff == effective_of(cur, act0, nm));
            }
            match eff {
                ModuleState::Disabled => {
                    proof {
                        assert(effective_of(ms0, act0, nm) is Disabled);
                        lemma_disable_spec_stable(ms0, act0, reqs, j as int);
                        lemma_disable_changed_snoc(ms0, act0, reqs, j as int);
                    }
                },
                ModuleState::Uncertain => {
                    changed = true;
                    proof {
                        assert(!(effective_of(ms0, act0, nm) is Disabled));
                        lemma_disable_spec_stable(ms0, act0, reqs, j as int);
                        lemma_disable_changed_snoc(ms0, act0, reqs, j as int);
                    }
                },
                ModuleState::Enabled => {
                    proof {
                        assert(effective_of(ms0, act0, nm) is Enabled);
                        assert(!(has_module(ms0, nm) && pre.contains(nm)));
                    }
                    let existed = self.registry.set_state(
                        modules[j].as_str(),
                        ModuleState::Uncertain,
                    );
                    changed = true;
                    proof {
                        lemma_lookup_same_names(ms0, cur);
                        lemma_disable_changed_snoc(ms0, act0, reqs, j as int);
                        if existed {
                            let i = idx_of(ms0, nm);
                            lemma_idx_of(ms0, nm);
                            assert(cur[i] == ms0[i]);
                            assert(self.registry.modules@ == cur.update(
                                i,
                                (Module { state: ModuleState::Uncertain, ..cur[i] }),
                            ));
                            assert forall|k: int|
                                0 <= k < ms0.len() implies self.registry.modules@[k]
                                == disable_registry_spec(ms0, act0, reqs.take(j + 1))[k] by {
                                lemma_take_snoc_contains(reqs, j as int, ms0[k].name@);
                                if k != i && ms0[k].name@ == nm {
                                    assert(ms0[i].name@ == nm);
                                    assert(false);
                                }
                            }
                            assert(self.registry.modules@ =~= disable_registry_spec(
                                ms0,
                                act0,
                                reqs.take(j + 1),
                            ));
                        } else {
                            assert forall|k: int|
                                0 <= k < ms0.len() implies disable_registry_spec(
                                ms0,
                                act0,
                                reqs.take(j + 1),
                            )[k] == cur[k] by {
                                lemma_take_snoc_contains(reqs, j as int, ms0[k].name@);
                                if ms0[k].name@ == nm {
                                    assert(has_module(ms0, nm));
                                }
                            }
                            assert(self.registry.modules@ =~= disable_registry_spec(
                                ms0,
                                act0,
                                reqs.take(j + 1),
                            ));
                        }
                    }
                },
            }
        }
        proof {
            assert(reqs.take(n as int) =~= reqs);
        }
        let removed = self.module_file.disable_modules(modules);
        proof {
            if removed && !changed {
                assert forall|i: int| 0 <= i < act0.len() implies !reqs.contains(
                    #[trigger] act0[i],
                ) by {
                    if reqs.contains(act0[i]) {
                        let j = choose|j: int| 0 <= j < reqs.len() && #[trigger] reqs[j] == act0[i];
                        assert(effective_of(ms0, act0, reqs[j]) is Disabled);
                        assert(act0.contains(act0[i]));
                        assert(false);
                    }
                }
                lemma_remove_all_unlisted(act0, reqs);
                assert(false);
            }
        }
        let did_change = changed || removed;
        (did_change, did_change || force)
    }

    /// The reset protocol, short of the apply step itself: a no-op when
    /// the activation set is already empty and no force was requested;
    /// otherwise every currently active name is marked `Uncertain` and
    /// the activation set is replaced with an empty one. The first result
    /// reports whether any change occurred — exactly when the set held
    /// something; the second says whether the apply step must run.
    pub fn reset(&mut self, force: bool) -> (r: (bool, bool))
        requires
            old(self).wf(),
        ensures
            r.0 == (old(self).module_file.active_modules@.len() != 0),
            r.1 == (r.0 || force),
            !r.1 ==> *final(self) == *old(self),
            r.1 ==> final(self).registry.modules@ == mark_spec(
                old(self).registry.modules@,
                old(self).module_file.active_modules.deep_view(),
            ),
            r.1 ==> final(self).module_file.active_modules.deep_view() == Seq::<
                Seq<char>,
            >::empty(),
            r.1 ==> final(self).module_file.content is None,
            final(self).registry.module_map == old(self).registry.module_map,
            final(self).wf(),
    {
        let was_occupied = self.module_file.active_modules.len() != 0;
        if !was_occupied && !force {
            return (false, false);
        }
        let ghost act0 = self.module_file.active_modules.deep_view();
        let names = self.module_file.active_modules.as_slice();
        proof {
            assert(names.deep_view() =~= act0);
        }
        self.registry.mark_uncertain(names);
        self.module_file = ModuleFile::empty();
        (was_occupied, true)
    }

    /// Folds the external applier's outcome back into the catalog, over
    /// the entire current activation set: success confirms every state,
    /// failure durably marks every active name `Uncertain`.
    pub fn commit_apply(&mut self, success: bool)
        requires
            old(self).wf(),
        ensures
            final(self).module_file == old(self).module_file,
            final(self).registry.module_map == old(self).registry.module_map,
            success ==> final(self).registry.modules@ == confirm_spec(
                old(self).registry.modules@,
                old(self).module_file.active_modules.deep_view(),
            ),
            !success ==> final(self).registry.modules@ == mark_spec(
                old(self).registry.modules@,
                old(self).module_file.active_modules.deep_view(),
            ),
            final(self).wf(),
    {
        let ghost act0 = self.module_file.active_modules.deep_view();
        let names = self.module_file.active_modules.as_slice();
        proof {
            assert(names.deep_view() =~= act0);
        }
        if success {
            self.registry.confirm_states(names);
        } else {
            self.registry.mark_uncertain(names);
        }
    }

    /// The rebuild decision: the designated retry path applies the
    /// unchanged activation set, unless it is empty and no force was
    /// requested.
    pub fn rebuild(&self, force: bool) -> (r: bool)
        ensures
            r == (force || self.module_file.active_modules@.len() != 0),
    {
        !(self.module_file.active_modules.len() == 0 && !force)
    }

    /// Renders the activation set as its persisted record, the engine's
    /// durable storage for the active name list.
    pub fn generate_content(&self) -> (r: String)
        ensures
            r@ == crate::codec::render_doc(self.module_file.active_modules.deep_view()),
    {
        self.module_file.generate_content()
    }

    /// Renders the activation set through the catalog into the
    /// descriptor artifact the external applier imports; the caller
    /// persists it before invoking the applier.
    pub fn render_descriptor(&self) -> (r: String)
        requires
            self.wf(),
        ensures
            r@ == crate::descriptor::descriptor_doc(
                crate::descriptor::resolved_entries(
                    self.module_file.active_modules.deep_view(),
                    self.registry.modules@,
                ),
            ),
    {
        self.module_file.render_descriptor(&self.registry)
    }
}

/// After a confirmation over an activation set, a module's effective
/// state is `Enabled` exactly when its name is in that set and `Disabled`
/// otherwise, and no catalog entry remains `Uncertain`.
pub proof fn lemma_confirm_resolves(ms: Seq<Module>, act: Seq<Seq<char>>, n: Seq<char>)
    ensures
        effective_of(confirm_spec(ms, act), act, n) == (if act.contains(n) {
            ModuleState::Enabled
        } else {
            ModuleState::Disabled
        }),
        forall|i: int|
            0 <= i < confirm_spec(ms, act).len() ==> !((#[trigger] confirm_spec(ms, act)[i]).state
                is Uncertain),
{
    let cur = confirm_spec(ms, act);
    assert(forall|i: int| 0 <= i < ms.len() ==> #[trigger] cur[i].name@ == ms[i].name@);
    lemma_lookup_same_names(ms, cur);
    lemma_idx_of(ms, n);
    if has_module(ms, n) {
        let i = idx_of(ms, n);
        assert(ms[i].name@ == n);
        assert(cur[i].state == if act.contains(n) {
            ModuleState::Enabled
        } else {
            ModuleState::Disabled
        });
    }
}

/// Idempotence of enabling: when every requested module is already
/// effectively `Enabled`, the enable protocol changes neither the catalog
/// nor the activation set, and no apply is needed.
pub proof fn lemma_enable_idempotent(ms: Seq<Module>, act: Seq<Seq<char>>, reqs: Seq<Seq<char>>)
    requires
        forall|j: int|
            0 <= j < reqs.len() ==> effective_of(ms, act, #[trigger] reqs[j]) is Enabled,
    ensures
        !enable_changed(ms, act, reqs),
        enable_registry_spec(ms, act, reqs) == ms,
        add_all_names(act, reqs) == act,
{
    assert forall|i: int|
        0 <= i < ms.len() implies enable_registry_spec(ms, act, reqs)[i] == ms[i] by {
        if reqs.contains(ms[i].name@) {
            let j = choose|j: int| 0 <= j < reqs.len() && #[trigger] reqs[j] == ms[i].name@;
            assert(effective_of(ms, act, ms[i].name@) is Enabled);
        }
    }
    assert(enable_registry_spec(ms, act, reqs) =~= ms);
    assert forall|j: int| 0 <= j < reqs.len() implies act.contains(#[trigger] reqs[j]) by {
        assert(effective_of(ms, act, reqs[j]) is Enabled);
    }
    lemma_add_all_unchanged(act, reqs);
}

/// The disable counterpart: when every requested module is already
/// effectively `Disabled`, the disable protocol changes neither the
/// catalog nor the activation set, and no apply is needed.
pub proof fn lemma_disable_noop(ms: Seq<Module>, act: Seq<Seq<char>>, reqs: Seq<Seq<char>>)
    requires
        forall|j: int|
            0 <= j < reqs.len() ==> effective_of(ms, act, #[trigger] reqs[j]) is Disabled,
    ensures
        !disable_changed(ms, act, reqs),
        disable_registry_spec(ms, act, reqs) == ms,
        remove_all_names(act, reqs) == act,
{
    assert forall|i: int|
        0 <= i < ms.len() implies disable_registry_spec(ms, act, reqs)[i] == ms[i] by {
        if reqs.contains(ms[i].name@) {
            let j = choose|j: int| 0 <= j < reqs.len() && #[trigger] reqs[j] == ms[i].name@;
            assert(effective_of(ms, act, ms[i].name@) is Disabled);
        }
    }
    assert(disable_registry_spec(ms, act, reqs) =~= ms);
    assert forall|i: int| 0 <= i < act.len() implies !reqs.contains(#[trigger] act[i]) by {
        if reqs.contains(act[i]) {
            let j = choose|j: int| 0 <= j < reqs.len() && #[trigger] reqs[j] == act[i];
            assert(effective_of(ms, act, reqs[j]) is Disabled);
            assert(act.contains(act[i]));
            assert(false);
        }
    }
    lemma_remove_all_unlisted(act, reqs);
}

} // verus!
