//! The module catalog: the list of known modules with each one's
//! last-confirmed state, plus a name-to-position index with a linear-scan
//! fallback that is functionally equivalent.

use vstd::prelude::*;
use vstd::hash_map::StringHashMap;

use crate::state::{names_contain, str_eq, Module, ModuleState};

verus! {

/// The position of the first catalog entry named `n`, or `ms.len()` when
/// there is none.
pub open spec fn idx_of(ms: Seq<Module>, n: Seq<char>) -> int
    decreases ms.len(),
{
    if ms.len() == 0 {
        0
    } else if ms[0].name@ == n {
        0
    } else {
        1 + idx_of(ms.drop_first(), n)
    }
}

/// True when some catalog entry is named `n`.
pub open spec fn has_module(ms: Seq<Module>, n: Seq<char>) -> bool {
    exists|i: int| 0 <= i < ms.len() && ms[i].name@ == n
}

/// The state the catalog records for `n`: `Disabled` for unknown names.
pub open spec fn stored_state(ms: Seq<Module>, n: Seq<char>) -> ModuleState {
    if has_module(ms, n) {
        ms[idx_of(ms, n)].state
    } else {
        ModuleState::Disabled
    }
}

/// No two catalog entries share a name.
pub open spec fn distinct_module_names(ms: Seq<Module>) -> bool {
    forall|i: int, j: int| 0 <= i < j < ms.len() ==> ms[i].name@ != ms[j].name@
}

/// The index is consistent with the entry list: it knows exactly the
/// entry names, each mapped to its position.
pub open spec fn map_matches(m: Map<Seq<char>, usize>, ms: Seq<Module>) -> bool {
    &&& forall|n: Seq<char>| #[trigger]
        m.dom().contains(n) ==> has_module(ms, n) && m[n] == idx_of(ms, n)
    &&& forall|n: Seq<char>| #[trigger] has_module(ms, n) ==> m.dom().contains(n)
}

/// How `idx_of` relates to the entries: it is the first position named
/// `n`, and runs off the end exactly when no entry is named `n`.
pub proof fn lemma_idx_of(ms: Seq<Module>, n: Seq<char>)
    ensures
        0 <= idx_of(ms, n) <= ms.len(),
        has_module(ms, n) <==> idx_of(ms, n) < ms.len(),
        idx_of(ms, n) < ms.len() ==> ms[idx_of(ms, n)].name@ == n,
        forall|k: int| 0 <= k < idx_of(ms, n) ==> ms[k].name@ != n,
    decreases ms.len(),
{
    if ms.len() == 0 {
    } else if ms[0].name@ == n {
    } else {
        let d = ms.drop_first();
        lemma_idx_of(d, n);
        assert forall|k: int| 0 <= k < idx_of(ms, n) implies ms[k].name@ != n by {
            if k > 0 {
                assert(d[k - 1] == ms[k]);
            }
        }
        if has_module(ms, n) {
            let i = choose|i: int| 0 <= i < ms.len() && ms[i].name@ == n;
            assert(d[i - 1].name@ == n);
            assert(has_module(d, n));
        }
        if has_module(d, n) {
            let i = choose|i: int| 0 <= i < d.len() && d[i].name@ == n;
            assert(ms[i + 1].name@ == n);
        }
    }
}

/// An entry named `n` at position `i`, with no earlier entry named `n`,
/// pins `idx_of` to `i`.
pub proof fn lemma_idx_of_first(ms: Seq<Module>, n: Seq<char>, i: int)
    requires
        0 <= i < ms.len(),
        ms[i].name@ == n,
        forall|k: int| 0 <= k < i ==> ms[k].name@ != n,
    ensures
        idx_of(ms, n) == i,
        has_module(ms, n),
{
    lemma_idx_of(ms, n);
    let j = idx_of(ms, n);
    if j < i {
        assert(ms[j].name@ != n);
    }
}

/// Lookups depend only on the entry names, never on states, paths or
/// descriptions.
pub proof fn lemma_lookup_same_names(ms1: Seq<Module>, ms2: Seq<Module>)
    requires
        ms1.len() == ms2.len(),
        forall|i: int| 0 <= i < ms1.len() ==> ms1[i].name@ == ms2[i].name@,
    ensures
        forall|n: Seq<char>| #[trigger] idx_of(ms1, n) == idx_of(ms2, n),
        forall|n: Seq<char>| #[trigger] has_module(ms1, n) <==> has_module(ms2, n),
{
    assert forall|n: Seq<char>| #[trigger] idx_of(ms1, n) == idx_of(ms2, n) by {
        lemma_idx_of_same_names(ms1, ms2, n);
    }
    assert forall|n: Seq<char>| #[trigger]
        has_module(ms1, n) <==> has_module(ms2, n) by {
        if has_module(ms1, n) {
            let i = choose|i: int| 0 <= i < ms1.len() && ms1[i].name@ == n;
            assert(ms2[i].name@ == n);
        }
        if has_module(ms2, n) {
            let i = choose|i: int| 0 <= i < ms2.len() && ms2[i].name@ == n;
            assert(ms1[i].name@ == n);
        }
    }
}

proof fn lemma_idx_of_same_names(ms1: Seq<Module>, ms2: Seq<Module>, n: Seq<char>)
    requires
        ms1.len() == ms2.len(),
        forall|i: int| 0 <= i < ms1.len() ==> ms1[i].name@ == ms2[i].name@,
    ensures
        idx_of(ms1, n) == idx_of(ms2, n),
    decreases ms1.len(),
{
    if ms1.len() > 0 && ms1[0].name@ != n {
        let d1 = ms1.drop_first();
        let d2 = ms2.drop_first();
        assert(forall|i: int| 0 <= i < d1.len() ==> #[trigger] d1[i].name@ == d2[i].name@) by {
            assert(forall|i: int|
                0 <= i < d1.len() ==> #[trigger] d1[i] == ms1[i + 1] && d2[i] == ms2[i + 1]);
        }
        lemma_idx_of_same_names(d1, d2, n);
    }
}

/// The catalog: the known modules in order, each with its last-confirmed
/// state, plus an optional name-to-position index. Lookups fall back to
/// a linear scan when the index has not been built; the two paths agree
/// whenever the index is consistent.
pub struct ModuleRegistry {
    pub modules: Vec<Module>,
    pub module_map: Option<StringHashMap<usize>>,
}

impl ModuleRegistry {
    /// The catalog's invariant: entry names are unique, and the index,
    /// once built, is consistent with the entry list.
    pub open spec fn wf(self) -> bool {
        &&& distinct_module_names(self.modules@)
        &&& match self.module_map {
            Some(m) => map_matches(m@, self.modules@),
            None => true,
        }
    }

    /// A catalog over the given entries; the index is not built yet.
    pub fn new(modules: Vec<Module>) -> (r: Self)
        ensures
            r.modules@ == modules@,
            r.module_map is None,
            distinct_module_names(modules@) ==> r.wf(),
    {
        ModuleRegistry { modules, module_map: None }
    }

    /// True when the name-to-position index has been built.
    pub fn has_lookup_map(&self) -> (r: bool)
        ensures
            r == (self.module_map is Some),
    {
        self.module_map.is_some()
    }

    /// The name-to-position index, if it has been built.
    pub fn get_lookup_map(&self) -> (r: Option<&StringHashMap<usize>>)
        ensures
            match r {
                Some(m) => self.module_map is Some && *m == self.module_map->0,
                None => self.module_map is None,
            },
    {
        self.module_map.as_ref()
    }

    /// Builds the name-to-position index. Each name is recorded at its
    /// first position, so the index is consistent with the entry list
    /// whether or not a later entry repeats a name.
    pub fn init_lookup(&mut self)
        ensures
            final(self).modules@ == old(self).modules@,
            final(self).module_map is Some,
            map_matches(final(self).module_map->0@, final(self).modules@),
            distinct_module_names(old(self).modules@) ==> final(self).wf(),
    {
        let ghost ms = self.modules@;
        let mut map: StringHashMap<usize> = StringHashMap::new();
        let n = self.modules.len();
        for i in 0..n
            invariant
                n == self.modules.len(),
                ms == self.modules@,
                forall|nm: Seq<char>| #[trigger]
                    map@.dom().contains(nm) ==> has_module(ms, nm) && map@[nm] == idx_of(ms, nm)
                        && idx_of(ms, nm) < i,
                forall|k: int| 0 <= k < i ==> #[trigger] map@.dom().contains(ms[k].name@),
        {
            let present = map.contains_key(self.modules[i].name.as_str());
            if !present {
                proof {
                    assert forall|k: int| 0 <= k < i implies ms[k].name@ != ms[i as int].name@ by {
                        if ms[k].name@ == ms[i as int].name@ {
                            assert(map@.dom().contains(ms[k].name@));
                        }
                    }
                    lemma_idx_of_first(ms, ms[i as int].name@, i as int);
                }
                let key = self.modules[i].name.clone();
                map.insert(key, i);
            }
        }
        proof {
            assert forall|nm: Seq<char>| #[trigger]
                has_module(ms, nm) implies map@.dom().contains(nm) by {
                let k = choose|k: int| 0 <= k < ms.len() && ms[k].name@ == nm;
                assert(map@.dom().contains(ms[k].name@));
            }
        }
        self.module_map = Some(map);
    }

    /// The position of the entry named `module_name`, through the index
    /// when it is built and by linear scan otherwise.
    pub(crate) fn lookup_index(&self, module_name: &str) -> (r: Option<usize>)
        requires
            self.wf(),
        ensures
            match r {
                Some(i) => has_module(self.modules@, module_name@) && i == idx_of(
                    self.modules@,
                    module_name@,
                ) && i < self.modules@.len(),
                None => !has_module(self.modules@, module_name@),
            },
    {
        proof {
            lemma_idx_of(self.modules@, module_name@);
        }
        match &self.module_map {
            Some(map) => {
                match map.get(module_name) {
                    Some(i) => Some(*i),
                    None => None,
                }
            },
            None => {
                let n = self.modules.len();
                for k in 0..n
                    invariant
                        n == self.modules.len(),
                        self.wf(),
                        forall|j: int| 0 <= j < k ==> self.modules@[j].name@ != module_name@,
                {
                    if str_eq(self.modules[k].name.as_str(), module_name) {
                        proof {
                            lemma_idx_of_first(self.modules@, module_name@, k as int);
                        }
                        return Some(k);
                    }
                }
                None
            },
        }
    }

    /// The path recorded for `module_name`, or `None` for a name the
    /// catalog does not know.
    pub fn get_module_path(&self, module_name: &str) -> (r: Option<String>)
        requires
            self.wf(),
        ensures
            match r {
                Some(p) => has_module(self.modules@, module_name@) && p@ == self.modules@[idx_of(
                    self.modules@,
                    module_name@,
                )].path@,
                None => !has_module(self.modules@, module_name@),
            },
    {
        match self.lookup_index(module_name) {
            Some(i) => Some(self.modules[i].path.clone()),
            None => None,
        }
    }

    /// The state the catalog records for `module_name`; `Disabled` for a
    /// name it does not know, so status queries never fail.
    pub fn get_state(&self, module_name: &str) -> (r: ModuleState)
        requires
            self.wf(),
        ensures
            r == stored_state(self.modules@, module_name@),
    {
        match self.lookup_index(module_name) {
            Some(i) => self.modules[i].state,
            None => ModuleState::Disabled,
        }
    }

    /// Records `state` for `module_name`; reports whether the name
    /// existed, and changes nothing otherwise.
    pub fn set_state(&mut self, module_name: &str, state: ModuleState) -> (r: bool)
        requires
            old(self).wf(),
        ensures
            r == has_module(old(self).modules@, module_name@),
            r ==> final(self).modules@ == old(self).modules@.update(
                idx_of(old(self).modules@, module_name@),
                (Module {
                    state,
                    ..old(self).modules@[idx_of(old(self).modules@, module_name@)]
                }),
            ),
            !r ==> final(self).modules@ == old(self).modules@,
            final(self).module_map == old(self).module_map,
            final(self).wf(),
    {
        match self.lookup_index(module_name) {
            Some(i) => {
                let m = &self.modules[i];
                let updated = Module {
                    name: m.name.clone(),
                    path: m.path.clone(),
                    desc: m.desc.clone(),
                    state,
                };
                self.modules.set(i, updated);
                proof {
                    lemma_wf_same_names(old(self), self);
                }
                true
            },
            None => false,
        }
    }

    /// True when no two catalog entries share a name: the executable form
    /// of the uniqueness half of the invariant, for a loader to check
    /// before it trusts freshly parsed storage.
    pub fn names_unique(&self) -> (r: bool)
        ensures
            r == distinct_module_names(self.modules@),
    {
        let n = self.modules.len();
        for i in 0..n
            invariant
                n == self.modules.len(),
                forall|a: int, b: int|
                    0 <= a < b < i ==> self.modules@[a].name@ != self.modules@[b].name@,
        {
            for j in 0..i
                invariant
                    n == self.modules.len(),
                    i < n,
                    forall|a: int, b: int|
                        0 <= a < b < i ==> self.modules@[a].name@ != self.modules@[b].name@,
                    forall|a: int| 0 <= a < j ==> self.modules@[a].name@ != self.modules@[
                        i as int
                    ].name@,
            {
                if str_eq(self.modules[j].name.as_str(), self.modules[i].name.as_str()) {
                    return false;
                }
            }
        }
        true
    }

    /// True when every listed name is a known module; used to reject a
    /// command before any mutation happens.
    pub fn verify_modules_exist(&self, modules: &[String]) -> (r: bool)
        requires
            self.wf(),
        ensures
            r == forall|k: int|
                0 <= k < modules.deep_view().len() ==> has_module(
                    self.modules@,
                    #[trigger] modules.deep_view()[k],
                ),
    {
        let n = modules.len();
        for k in 0..n
            invariant
                n == modules.len(),
                self.wf(),
                forall|j: int|
                    0 <= j < k ==> has_module(self.modules@, #[trigger] modules.deep_view()[j]),
        {
            let found = self.lookup_index(modules[k].as_str());
            proof {
                assert(modules.deep_view()[k as int] == modules@[k as int]@);
            }
            if found.is_none() {
                proof {
                    assert(!has_module(self.modules@, modules.deep_view()[k as int]));
                }
                return false;
            }
            proof {
                assert(has_module(self.modules@, modules.deep_view()[k as int]));
            }
        }
        true
    }
}

/// What a confirmation does to the catalog: every entry whose name is in
/// `active` becomes `Enabled`, every other entry becomes `Disabled`.
pub open spec fn confirm_spec(ms: Seq<Module>, active: Seq<Seq<char>>) -> Seq<Module> {
    Seq::new(
        ms.len(),
        |i: int|
            (Module {
                state: if active.contains(ms[i].name@) {
                    ModuleState::Enabled
                } else {
                    ModuleState::Disabled
                },
                ..ms[i]
            }),
    )
}

/// What an optimistic pre-apply marking does to the catalog: every entry
/// whose name is listed becomes `Uncertain`, the rest stay as they were.
pub open spec fn mark_spec(ms: Seq<Module>, listed: Seq<Seq<char>>) -> Seq<Module> {
    Seq::new(
        ms.len(),
        |i: int|
            if listed.contains(ms[i].name@) {
                (Module { state: ModuleState::Uncertain, ..ms[i] })
            } else {
                ms[i]
            },
    )
}

impl ModuleRegistry {
    /// The authoritative recomputation after a successful apply: every
    /// module named in `active_names` becomes `Enabled`, every other
    /// module becomes `Disabled`. The one operation that clears
    /// `Uncertain`.
    pub fn confirm_states(&mut self, active_names: &[String])
        requires
            old(self).wf(),
        ensures
            final(self).modules@ == confirm_spec(old(self).modules@, active_names.deep_view()),
            final(self).module_map == old(self).module_map,
            final(self).wf(),
    {
        let ghost ms0 = self.modules@;
        let ghost act = active_names.deep_view();
        let n = self.modules.len();
        for i in 0..n
            invariant
                n == self.modules@.len(),
                ms0.len() == n,
                act == active_names.deep_view(),
                forall|k: int| 0 <= k < i ==> self.modules@[k] == confirm_spec(ms0, act)[k],
                forall|k: int| i <= k < n ==> self.modules@[k] == ms0[k],
                self.module_map == old(self).module_map,
        {
            let is_active = names_contain(active_names, self.modules[i].name.as_str());
            let m = &self.modules[i];
            let updated = Module {
                name: m.name.clone(),
                path: m.path.clone(),
                desc: m.desc.clone(),
                state: if is_active {
                    ModuleState::Enabled
                } else {
                    ModuleState::Disabled
                },
            };
            self.modules.set(i, updated);
        }
        proof {
            assert(self.modules@ =~= confirm_spec(ms0, act));
            lemma_wf_same_names(old(self), self);
        }
    }

    /// The optimistic pre-apply marker and the post-failure record: every
    /// listed, existing name is set to `Uncertain`.
    pub fn mark_uncertain(&mut self, names: &[String])
        requires
            old(self).wf(),
        ensures
            final(self).modules@ == mark_spec(old(self).modules@, names.deep_view()),
            final(self).module_map == old(self).module_map,
            final(self).wf(),
    {
        let ghost ms0 = self.modules@;
        let ghost listed = names.deep_view();
        let n = self.modules.len();
        for i in 0..n
            invariant
                n == self.modules@.len(),
                ms0.len() == n,
                listed == names.deep_view(),
                forall|k: int| 0 <= k < i ==> self.modules@[k] == mark_spec(ms0, listed)[k],
                forall|k: int| i <= k < n ==> self.modules@[k] == ms0[k],
                self.module_map == old(self).module_map,
        {
            let is_listed = names_contain(names, self.modules[i].name.as_str());
            if is_listed {
                let m = &self.modules[i];
                let updated = Module {
                    name: m.name.clone(),
                    path: m.path.clone(),
                    desc: m.desc.clone(),
                    state: ModuleState::Uncertain,
                };
                self.modules.set(i, updated);
            }
        }
        proof {
            assert(self.modules@ =~= mark_spec(ms0, listed));
            lemma_wf_same_names(old(self), self);
        }
    }
}

proof fn lemma_wf_same_names(pre: &ModuleRegistry, post: &ModuleRegistry)
    requires
        pre.wf(),
        post.modules@.len() == pre.modules@.len(),
        forall|k: int| 0 <= k < pre.modules@.len() ==> post.modules@[k].name@
            == pre.modules@[k].name@,
        post.module_map == pre.module_map,
    ensures
        post.wf(),
{
    lemma_lookup_same_names(pre.modules@, post.modules@);
    assert(distinct_module_names(post.modules@));
    if pre.module_map is Some {
        let m = pre.module_map->0@;
        assert(map_matches(m, pre.modules@));
        assert forall|n: Seq<char>| #[trigger]
            m.dom().contains(n) implies has_module(post.modules@, n) && m[n] == idx_of(
            post.modules@,
            n,
        ) by {
            assert(idx_of(pre.modules@, n) == idx_of(post.modules@, n));
            assert(has_module(pre.modules@, n));
        }
        assert forall|n: Seq<char>| #[trigger]
            has_module(post.modules@, n) implies m.dom().contains(n) by {
            assert(has_module(pre.modules@, n) <==> has_module(post.modules@, n));
        }
    }
}

} // verus!
