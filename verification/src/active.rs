//! The activation set: the ordered list of module names the administrator
//! wants active, with duplicate-free insertion and order-preserving
//! removal.

use vstd::prelude::*;

use crate::codec::{parse_doc, parse_names, render_doc, render_names};
use crate::descriptor::{descriptor_doc, render_descriptor_text, resolved_entries};
use crate::registry::ModuleRegistry;
use crate::state::names_contain;

verus! {

/// What adding every name of `reqs` in order does to `base`: a name not
/// yet present is appended, a present one is left alone.
pub open spec fn add_all_names(base: Seq<Seq<char>>, reqs: Seq<Seq<char>>) -> Seq<Seq<char>>
    decreases reqs.len(),
{
    if reqs.len() == 0 {
        base
    } else {
        let base2 = if base.contains(reqs[0]) {
            base
        } else {
            base.push(reqs[0])
        };
        add_all_names(base2, reqs.drop_first())
    }
}

/// What removing every name of `reqs` does to `base`: the entries not
/// listed in `reqs`, in their original order.
pub open spec fn remove_all_names(base: Seq<Seq<char>>, reqs: Seq<Seq<char>>) -> Seq<Seq<char>>
    decreases base.len(),
{
    if base.len() == 0 {
        Seq::empty()
    } else {
        let rest = remove_all_names(base.drop_first(), reqs);
        if reqs.contains(base[0]) {
            rest
        } else {
            seq![base[0]] + rest
        }
    }
}

/// No name occurs twice.
pub open spec fn distinct_names(ns: Seq<Seq<char>>) -> bool {
    forall|i: int, j: int| 0 <= i < j < ns.len() ==> ns[i] != ns[j]
}

/// How often `x` occurs in `ns`.
pub open spec fn count_name(ns: Seq<Seq<char>>, x: Seq<char>) -> nat
    decreases ns.len(),
{
    if ns.len() == 0 {
        0
    } else {
        (if ns[0] == x {
            1nat
        } else {
            0nat
        }) + count_name(ns.drop_first(), x)
    }
}

pub proof fn lemma_add_all_snoc(base: Seq<Seq<char>>, reqs: Seq<Seq<char>>, r: Seq<char>)
    ensures
        add_all_names(base, reqs.push(r)) == ({
            let b = add_all_names(base, reqs);
            if b.contains(r) {
                b
            } else {
                b.push(r)
            }
        }),
    decreases reqs.len(),
{
    if reqs.len() == 0 {
        let b2 = if base.contains(r) {
            base
        } else {
            base.push(r)
        };
        assert(reqs.push(r)[0] == r);
        assert(reqs.push(r).drop_first() =~= reqs);
        assert(add_all_names(b2, reqs) == b2);
        assert(add_all_names(base, reqs.push(r)) == add_all_names(b2, reqs));
    } else {
        let base2 = if base.contains(reqs[0]) {
            base
        } else {
            base.push(reqs[0])
        };
        assert(reqs.push(r).drop_first() =~= reqs.drop_first().push(r));
        lemma_add_all_snoc(base2, reqs.drop_first(), r);
    }
}

/// Adding names never loses entries and keeps `base` as a prefix.
pub proof fn lemma_add_all_len(base: Seq<Seq<char>>, reqs: Seq<Seq<char>>)
    ensures
        add_all_names(base, reqs).len() >= base.len(),
        forall|i: int|
            0 <= i < base.len() ==> add_all_names(base, reqs)[i] == base[i],
    decreases reqs.len(),
{
    if reqs.len() > 0 {
        let base2 = if base.contains(reqs[0]) {
            base
        } else {
            base.push(reqs[0])
        };
        lemma_add_all_len(base2, reqs.drop_first());
        assert forall|i: int|
            0 <= i < base.len() implies add_all_names(base, reqs)[i] == base[i] by {
            assert(add_all_names(base, reqs) == add_all_names(base2, reqs.drop_first()));
            assert(add_all_names(base2, reqs.drop_first())[i] == base2[i]);
        }
    }
}

/// The result of `add_all_names` holds exactly the names of `base` and of
/// `reqs`.
pub proof fn lemma_add_all_membership(base: Seq<Seq<char>>, reqs: Seq<Seq<char>>, x: Seq<char>)
    ensures
        add_all_names(base, reqs).contains(x) <==> (base.contains(x) || reqs.contains(x)),
    decreases reqs.len(),
{
    if reqs.len() == 0 {
        assert(!reqs.contains(x));
    } else {
        let base2 = if base.contains(reqs[0]) {
            base
        } else {
            base.push(reqs[0])
        };
        lemma_push_contains(base, reqs[0], x);
        lemma_add_all_membership(base2, reqs.drop_first(), x);
        assert(reqs.contains(x) <==> (reqs[0] == x || reqs.drop_first().contains(x))) by {
            if reqs.contains(x) {
                let i = choose|i: int| 0 <= i < reqs.len() && reqs[i] == x;
                if i > 0 {
                    assert(reqs.drop_first()[i - 1] == x);
                }
            }
            if reqs.drop_first().contains(x) {
                let i = choose|i: int|
                    0 <= i < reqs.drop_first().len() && reqs.drop_first()[i] == x;
                assert(reqs[i + 1] == x);
            }
        }
    }
}

proof fn lemma_push_contains(ns: Seq<Seq<char>>, r: Seq<char>, x: Seq<char>)
    ensures
        ns.push(r).contains(x) <==> (ns.contains(x) || x == r),
{
    if ns.contains(x) {
        let i = choose|i: int| 0 <= i < ns.len() && ns[i] == x;
        assert(ns.push(r)[i] == x);
    }
    assert(ns.push(r)[ns.len() as int] == r);
    if ns.push(r).contains(x) {
        let i = choose|i: int| 0 <= i < ns.push(r).len() && ns.push(r)[i] == x;
        if i < ns.len() {
            assert(ns[i] == x);
        }
    }
}

/// Guarded insertion keeps the names distinct.
pub proof fn lemma_add_all_distinct(base: Seq<Seq<char>>, reqs: Seq<Seq<char>>)
    requires
        distinct_names(base),
    ensures
        distinct_names(add_all_names(base, reqs)),
    decreases reqs.len(),
{
    if reqs.len() > 0 {
        let base2 = if base.contains(reqs[0]) {
            base
        } else {
            base.push(reqs[0])
        };
        assert(distinct_names(base2)) by {
            if !base.contains(reqs[0]) {
                assert forall|i: int, j: int| 0 <= i < j < base2.len() implies base2[i]
                    != base2[j] by {
                    if j == base.len() {
                        assert(base2[i] == base[i]);
                        if base[i] == reqs[0] {
                            assert(base.contains(reqs[0]));
                        }
                    }
                }
            }
        }
        lemma_add_all_distinct(base2, reqs.drop_first());
    }
}

/// In a duplicate-free list every present name occurs exactly once.
pub proof fn lemma_distinct_count(ns: Seq<Seq<char>>, x: Seq<char>)
    requires
        distinct_names(ns),
    ensures
        count_name(ns, x) == (if ns.contains(x) {
            1nat
        } else {
            0nat
        }),
    decreases ns.len(),
{
    if ns.len() > 0 {
        assert(distinct_names(ns.drop_first())) by {
            assert forall|i: int, j: int|
                0 <= i < j < ns.drop_first().len() implies ns.drop_first()[i]
                != ns.drop_first()[j] by {
                assert(ns.drop_first()[i] == ns[i + 1]);
                assert(ns.drop_first()[j] == ns[j + 1]);
            }
        }
        lemma_distinct_count(ns.drop_first(), x);
        if ns[0] == x {
            if ns.drop_first().contains(x) {
                let i = choose|i: int|
                    0 <= i < ns.drop_first().len() && ns.drop_first()[i] == x;
                assert(ns[i + 1] == x);
                assert(false);
            }
            assert(ns.contains(x));
        } else {
            if ns.contains(x) {
                let i = choose|i: int| 0 <= i < ns.len() && ns[i] == x;
                assert(ns.drop_first()[i - 1] == x);
            }
            if ns.drop_first().contains(x) {
                let i = choose|i: int|
                    0 <= i < ns.drop_first().len() && ns.drop_first()[i] == x;
                assert(ns[i + 1] == x);
            }
        }
    }
}

/// Duplicate safety: adding `[a, a, b]` to a duplicate-free activation
/// set leaves `a` present exactly once.
pub proof fn lemma_add_all_duplicate_safe(base: Seq<Seq<char>>, a: Seq<char>, b: Seq<char>)
    requires
        distinct_names(base),
    ensures
        count_name(add_all_names(base, seq![a, a, b]), a) == 1,
{
    let reqs = seq![a, a, b];
    lemma_add_all_distinct(base, reqs);
    lemma_add_all_membership(base, reqs, a);
    assert(reqs[0] == a);
    assert(reqs.contains(a));
    lemma_distinct_count(add_all_names(base, reqs), a);
}

pub proof fn lemma_remove_all_snoc(base: Seq<Seq<char>>, reqs: Seq<Seq<char>>, x: Seq<char>)
    ensures
        remove_all_names(base.push(x), reqs) == remove_all_names(base, reqs) + (if reqs.contains(
            x,
        ) {
            Seq::<Seq<char>>::empty()
        } else {
            seq![x]
        }),
    decreases base.len(),
{
    if base.len() == 0 {
        assert(base.push(x)[0] == x);
        assert(base.push(x).drop_first() =~= base);
        if reqs.contains(x) {
            assert(remove_all_names(base, reqs) + Seq::<Seq<char>>::empty()
                =~= remove_all_names(base.push(x), reqs));
        } else {
            assert(remove_all_names(base, reqs) =~= Seq::<Seq<char>>::empty());
            assert(remove_all_names(base.push(x), reqs) =~= seq![x]);
            assert(remove_all_names(base, reqs) + seq![x] =~= seq![x]);
        }
    } else {
        assert(base.push(x)[0] == base[0]);
        assert(base.push(x).drop_first() =~= base.drop_first().push(x));
        lemma_remove_all_snoc(base.drop_first(), reqs, x);
        if !reqs.contains(base[0]) {
            assert(seq![base[0]] + (remove_all_names(base.drop_first(), reqs) + (if reqs.contains(
                x,
            ) {
                Seq::<Seq<char>>::empty()
            } else {
                seq![x]
            })) =~= (seq![base[0]] + remove_all_names(base.drop_first(), reqs)) + (
            if reqs.contains(x) {
                Seq::<Seq<char>>::empty()
            } else {
                seq![x]
            }));
        } else {
            if reqs.contains(x) {
                assert(remove_all_names(base, reqs) + Seq::<Seq<char>>::empty()
                    =~= remove_all_names(base, reqs));
            }
        }
    }
}

/// Removal never grows the list.
pub proof fn lemma_remove_all_len(base: Seq<Seq<char>>, reqs: Seq<Seq<char>>)
    ensures
        remove_all_names(base, reqs).len() <= base.len(),
    decreases base.len(),
{
    if base.len() > 0 {
        lemma_remove_all_len(base.drop_first(), reqs);
    }
}

/// A removal that kept the length kept every entry.
pub proof fn lemma_remove_all_same_len(base: Seq<Seq<char>>, reqs: Seq<Seq<char>>)
    requires
        remove_all_names(base, reqs).len() == base.len(),
    ensures
        remove_all_names(base, reqs) == base,
    decreases base.len(),
{
    if base.len() > 0 {
        let rest = remove_all_names(base.drop_first(), reqs);
        lemma_remove_all_len(base.drop_first(), reqs);
        if reqs.contains(base[0]) {
            assert(false);
        } else {
            lemma_remove_all_same_len(base.drop_first(), reqs);
            assert(seq![base[0]] + base.drop_first() =~= base);
        }
    } else {
        assert(remove_all_names(base, reqs) =~= base);
    }
}

/// What remains after a removal is what was there and is not listed.
pub proof fn lemma_remove_all_membership(base: Seq<Seq<char>>, reqs: Seq<Seq<char>>, x: Seq<char>)
    ensures
        remove_all_names(base, reqs).contains(x) <==> (base.contains(x) && !reqs.contains(x)),
    decreases base.len(),
{
    if base.len() == 0 {
    } else {
        lemma_remove_all_membership(base.drop_first(), reqs, x);
        let rest = remove_all_names(base.drop_first(), reqs);
        assert(base.contains(x) <==> (base[0] == x || base.drop_first().contains(x))) by {
            if base.contains(x) {
                let i = choose|i: int| 0 <= i < base.len() && base[i] == x;
                if i > 0 {
                    assert(base.drop_first()[i - 1] == x);
                }
            }
            if base.drop_first().contains(x) {
                let i = choose|i: int|
                    0 <= i < base.drop_first().len() && base.drop_first()[i] == x;
                assert(base[i + 1] == x);
            }
        }
        if !reqs.contains(base[0]) {
            let whole = seq![base[0]] + rest;
            assert(whole[0] == base[0]);
            assert(whole.contains(x) <==> (base[0] == x || rest.contains(x))) by {
                if whole.contains(x) {
                    let i = choose|i: int| 0 <= i < whole.len() && whole[i] == x;
                    if i > 0 {
                        assert(rest[i - 1] == x);
                    }
                }
                if rest.contains(x) {
                    let i = choose|i: int| 0 <= i < rest.len() && rest[i] == x;
                    assert(whole[i + 1] == x);
                }
            }
        }
    }
}

/// Removal keeps a duplicate-free list duplicate-free.
pub proof fn lemma_remove_all_distinct(base: Seq<Seq<char>>, reqs: Seq<Seq<char>>)
    requires
        distinct_names(base),
    ensures
        distinct_names(remove_all_names(base, reqs)),
    decreases base.len(),
{
    if base.len() > 0 {
        assert(distinct_names(base.drop_first())) by {
            assert forall|i: int, j: int|
                0 <= i < j < base.drop_first().len() implies base.drop_first()[i]
                != base.drop_first()[j] by {
                assert(base.drop_first()[i] == base[i + 1]);
                assert(base.drop_first()[j] == base[j + 1]);
            }
        }
        lemma_remove_all_distinct(base.drop_first(), reqs);
        let rest = remove_all_names(base.drop_first(), reqs);
        if !reqs.contains(base[0]) {
            let whole = seq![base[0]] + rest;
            assert forall|i: int, j: int| 0 <= i < j < whole.len() implies whole[i]
                != whole[j] by {
                if i == 0 {
                    lemma_remove_all_membership(base.drop_first(), reqs, whole[j]);
                    assert(whole[j] == rest[j - 1]);
                    assert(rest.contains(rest[j - 1]));
                    if whole[0] == whole[j] {
                        let k = choose|k: int|
                            0 <= k < base.drop_first().len() && base.drop_first()[k] == whole[j];
                        assert(base[k + 1] == base[0]);
                        assert(false);
                    }
                } else {
                    assert(whole[i] == rest[i - 1]);
                    assert(whole[j] == rest[j - 1]);
                }
            }
        }
    }
}

/// Adding names that are all present already changes nothing.
pub proof fn lemma_add_all_unchanged(base: Seq<Seq<char>>, reqs: Seq<Seq<char>>)
    requires
        forall|j: int| 0 <= j < reqs.len() ==> base.contains(#[trigger] reqs[j]),
    ensures
        add_all_names(base, reqs) == base,
    decreases reqs.len(),
{
    if reqs.len() > 0 {
        assert(base.contains(reqs[0]));
        assert(forall|j: int|
            0 <= j < reqs.drop_first().len() ==> base.contains(
                #[trigger] reqs.drop_first()[j],
            )) by {
            assert(forall|j: int|
                0 <= j < reqs.drop_first().len() ==> #[trigger] reqs.drop_first()[j] == reqs[j
                    + 1]);
        }
        lemma_add_all_unchanged(base, reqs.drop_first());
    }
}

/// Removing names of which none is present changes nothing.
pub proof fn lemma_remove_all_unlisted(base: Seq<Seq<char>>, reqs: Seq<Seq<char>>)
    requires
        forall|i: int| 0 <= i < base.len() ==> !reqs.contains(#[trigger] base[i]),
    ensures
        remove_all_names(base, reqs) == base,
    decreases base.len(),
{
    if base.len() == 0 {
        assert(remove_all_names(base, reqs) =~= base);
    } else {
        assert(forall|i: int|
            0 <= i < base.drop_first().len() ==> !reqs.contains(
                #[trigger] base.drop_first()[i],
            )) by {
            assert(forall|i: int|
                0 <= i < base.drop_first().len() ==> #[trigger] base.drop_first()[i] == base[i
                    + 1]);
        }
        lemma_remove_all_unlisted(base.drop_first(), reqs);
        assert(!reqs.contains(base[0]));
        assert(seq![base[0]] + base.drop_first() =~= base);
    }
}

/// The administrator's desired list of active module names, kept
/// duplicate-free, together with the raw persisted text it was read from.
pub struct ModuleFile {
    pub active_modules: Vec<String>,
    pub content: Option<String>,
}

impl ModuleFile {
    /// The activation set's well-formedness: no name is stored twice.
    pub open spec fn wf(self) -> bool {
        distinct_names(self.active_modules.deep_view())
    }

    /// An empty activation set, as on a first run when no storage exists.
    pub fn empty() -> (r: Self)
        ensures
            r.active_modules.deep_view() == Seq::<Seq<char>>::empty(),
            r.content is None,
            r.wf(),
    {
        let r = ModuleFile { active_modules: Vec::new(), content: None };
        assert(r.active_modules.deep_view() =~= Seq::<Seq<char>>::empty());
        r
    }

    /// True when `module_name` is in the activation set.
    pub fn is_module_enabled(&self, module_name: &str) -> (r: bool)
        ensures
            r == self.active_modules.deep_view().contains(module_name@),
    {
        let s = self.active_modules.as_slice();
        let r = names_contain(s, module_name);
        proof {
            assert(s.deep_view() =~= self.active_modules.deep_view());
        }
        r
    }

    /// Inserts every listed name not already present, preserving
    /// first-seen order; reports whether anything was inserted.
    pub fn enable_modules(&mut self, modules: &[String]) -> (changed: bool)
        ensures
            final(self).active_modules.deep_view() == add_all_names(
                old(self).active_modules.deep_view(),
                modules.deep_view(),
            ),
            final(self).content == old(self).content,
            changed == (final(self).active_modules.deep_view()
                != old(self).active_modules.deep_view()),
            old(self).wf() ==> final(self).wf(),
    {
        let ghost base = self.active_modules.deep_view();
        let ghost reqs = modules.deep_view();
        let mut changes = false;
        let n = modules.len();
        assert(reqs.take(0) =~= Seq::<Seq<char>>::empty());
        for i in 0..n
            invariant
                n == modules.len(),
                reqs == modules.deep_view(),
                self.active_modules.deep_view() == add_all_names(base, reqs.take(i as int)),
                self.content == old(self).content,
                changes ==> self.active_modules.deep_view().len() > base.len(),
                !changes ==> self.active_modules.deep_view() == base,
        {
            let present = self.is_module_enabled(modules[i].as_str());
            proof {
                assert(reqs.take(i + 1).drop_last() =~= reqs.take(i as int));
                assert(reqs.take(i + 1) =~= reqs.take(i as int).push(reqs[i as int]));
                lemma_add_all_snoc(base, reqs.take(i as int), reqs[i as int]);
                lemma_add_all_len(base, reqs.take(i as int));
            }
            if !present {
                let name = modules[i].clone();
                self.active_modules.push(name);
                changes = true;
                proof {
                    assert(self.active_modules.deep_view() =~= add_all_names(
                        base,
                        reqs.take(i as int),
                    ).push(reqs[i as int]));
                }
            }
        }
        proof {
            assert(reqs.take(n as int) =~= reqs);
            if old(self).wf() {
                lemma_add_all_distinct(base, reqs);
            }
            lemma_add_all_len(base, reqs);
        }
        changes
    }

    /// Removes every listed name, keeping the rest in order; reports
    /// whether the set shrank.
    pub fn disable_modules(&mut self, modules: &[String]) -> (changed: bool)
        ensures
            final(self).active_modules.deep_view() == remove_all_names(
                old(self).active_modules.deep_view(),
                modules.deep_view(),
            ),
            final(self).content == old(self).content,
            changed == (final(self).active_modules.deep_view()
                != old(self).active_modules.deep_view()),
            old(self).wf() ==> final(self).wf(),
    {
        let ghost base = self.active_modules.deep_view();
        let ghost reqs = modules.deep_view();
        let mut kept: Vec<String> = Vec::new();
        let n = self.active_modules.len();
        assert(kept.deep_view() =~= Seq::<Seq<char>>::empty());
        assert(remove_all_names(base.take(0), reqs) =~= Seq::<Seq<char>>::empty());
        for i in 0..n
            invariant
                n == self.active_modules.len(),
                base == self.active_modules.deep_view(),
                reqs == modules.deep_view(),
                kept.deep_view() == remove_all_names(base.take(i as int), reqs),
        {
            let listed = names_contain(modules, self.active_modules[i].as_str());
            proof {
                assert(base.take(i + 1).drop_last() =~= base.take(i as int));
                assert(base.take(i + 1) =~= base.take(i as int).push(base[i as int]));
                lemma_remove_all_snoc(base.take(i as int), reqs, base[i as int]);
            }
            if !listed {
                let name = self.active_modules[i].clone();
                kept.push(name);
                proof {
                    assert(kept.deep_view() =~= remove_all_names(base.take(i as int), reqs)
                        + seq![base[i as int]]);
                }
            } else {
                proof {
                    assert(remove_all_names(base.take(i + 1), reqs) =~= remove_all_names(
                        base.take(i as int),
                        reqs,
                    ) + Seq::<Seq<char>>::empty());
                    assert(remove_all_names(base.take(i + 1), reqs) =~= remove_all_names(
                        base.take(i as int),
                        reqs,
                    ));
                }
            }
        }
        proof {
            assert(base.take(n as int) =~= base);
        }
        let changed = kept.len() != self.active_modules.len();
        proof {
            lemma_remove_all_len(base, reqs);
            if kept.deep_view().len() == base.len() {
                lemma_remove_all_same_len(base, reqs);
            }
            if old(self).wf() {
                lemma_remove_all_distinct(base, reqs);
            }
        }
        self.active_modules = kept;
        changed
    }

    /// Parses persisted record text into the name list it holds, exactly
    /// as written; malformed text yields the empty list.
    pub fn parse_active_modules(content: &str) -> (r: Vec<String>)
        ensures
            r.deep_view() == parse_doc(content@),
    {
        parse_names(content)
    }

    /// The activation set a persisted record describes. Names are
    /// inserted one by one, so duplicates in the text are dropped and the
    /// set's invariant holds of whatever was read.
    pub fn from_content(content: &str) -> (r: ModuleFile)
        ensures
            r.active_modules.deep_view() == add_all_names(
                Seq::empty(),
                parse_doc(content@),
            ),
            r.wf(),
            match r.content {
                Some(c) => c@ == content@,
                None => false,
            },
    {
        let names = Self::parse_active_modules(content);
        let mut f = ModuleFile::empty();
        let s = names.as_slice();
        proof {
            assert(s.deep_view() =~= names.deep_view());
        }
        let _ = f.enable_modules(s);
        f.content = Some(content.to_owned());
        f
    }

    /// Renders the current activation set as its persisted record: the
    /// engine's durable, round-trip parseable storage shape.
    pub fn generate_content(&self) -> (r: String)
        ensures
            r@ == render_doc(self.active_modules.deep_view()),
    {
        render_names(&self.active_modules)
    }

    /// Renders the activation set through the catalog into the
    /// descriptor the external applier imports: one line per active name
    /// that resolves, in activation-set order, holding the resolved path
    /// and a recoverable `# <name>` tag; unresolvable names are skipped
    /// and the descriptor is still produced.
    pub fn render_descriptor(&self, registry: &ModuleRegistry) -> (r: String)
        requires
            registry.wf(),
        ensures
            r@ == descriptor_doc(
                resolved_entries(self.active_modules.deep_view(), registry.modules@),
            ),
    {
        render_descriptor_text(&self.active_modules, registry)
    }

    /// The raw persisted text this activation set was read from, if any.
    pub fn get_content(&self) -> (r: Option<&String>)
        ensures
            match r {
                Some(c) => self.content == Some(*c),
                None => self.content is None,
            },
    {
        self.content.as_ref()
    }
}

} // verus!
