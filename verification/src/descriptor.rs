//! The descriptor renderer: the pure function that renders the
//! activation set through the catalog into the artifact the external
//! applier imports. Each active name that resolves in the catalog
//! contributes one line holding its quoted path and a recoverable
//! `# <name>` tag; names that do not resolve are skipped without error,
//! and an empty entry list renders an explicit marker instead of an
//! import list.

use vstd::prelude::*;

use crate::registry::{has_module, idx_of, lemma_idx_of, ModuleRegistry};
use crate::state::Module;

verus! {

/// The active names that resolve in the catalog, in activation-set order,
/// each paired with its resolved path; unresolvable names are skipped.
pub open spec fn resolved_entries(act: Seq<Seq<char>>, ms: Seq<Module>) -> Seq<
    (Seq<char>, Seq<char>),
>
    decreases act.len(),
{
    if act.len() == 0 {
        Seq::empty()
    } else {
        let rest = resolved_entries(act.drop_first(), ms);
        if has_module(ms, act[0]) {
            seq![(act[0], ms[idx_of(ms, act[0])].path@)] + rest
        } else {
            rest
        }
    }
}

/// The lines that open the descriptor, down to where the entries go.
pub open spec fn descriptor_header() -> Seq<char> {
    "# runtime-module import list\n{ ... }:\n{\n"@
}

/// One descriptor entry: the module's quoted path, tagged with its name
/// so a parse routine can recover the name verbatim.
pub open spec fn descriptor_entry(name: Seq<char>, path: Seq<char>) -> Seq<char> {
    "    \""@ + path + "\" # "@ + name + "\n"@
}

/// The entry lines of the descriptor, in activation-set order.
pub open spec fn descriptor_entries_text(entries: Seq<(Seq<char>, Seq<char>)>) -> Seq<char>
    decreases entries.len(),
{
    if entries.len() == 0 {
        Seq::empty()
    } else {
        descriptor_entry(entries[0].0, entries[0].1) + descriptor_entries_text(
            entries.drop_first(),
        )
    }
}

/// The descriptor text the external applier imports: header, the entry
/// lines inside an import list, footer; an explicit marker when there is
/// no entry.
pub open spec fn descriptor_doc(entries: Seq<(Seq<char>, Seq<char>)>) -> Seq<char> {
    if entries.len() == 0 {
        descriptor_header() + "  # No active modules\n"@ + "}\n"@
    } else {
        descriptor_header() + "  imports = [\n"@ + descriptor_entries_text(entries) + "  ];\n"@
            + "}\n"@
    }
}

/// Appending one name to the activation set appends its entry to the
/// resolved list exactly when the catalog knows the name.
proof fn lemma_resolved_snoc(act: Seq<Seq<char>>, ms: Seq<Module>, n: Seq<char>)
    ensures
        resolved_entries(act.push(n), ms) == resolved_entries(act, ms) + (if has_module(ms, n) {
            seq![(n, ms[idx_of(ms, n)].path@)]
        } else {
            Seq::<(Seq<char>, Seq<char>)>::empty()
        }),
    decreases act.len(),
{
    let tail = if has_module(ms, n) {
        seq![(n, ms[idx_of(ms, n)].path@)]
    } else {
        Seq::<(Seq<char>, Seq<char>)>::empty()
    };
    if act.len() == 0 {
        assert(act.push(n)[0] == n);
        assert(act.push(n).drop_first() =~= act);
        assert(resolved_entries(act, ms) =~= Seq::<(Seq<char>, Seq<char>)>::empty());
        if has_module(ms, n) {
            assert(resolved_entries(act.push(n), ms) =~= tail);
            assert(resolved_entries(act, ms) + tail =~= tail);
        } else {
            assert(resolved_entries(act, ms) + tail =~= resolved_entries(act.push(n), ms));
        }
    } else {
        assert(act.push(n)[0] == act[0]);
        assert(act.push(n).drop_first() =~= act.drop_first().push(n));
        lemma_resolved_snoc(act.drop_first(), ms, n);
        if has_module(ms, act[0]) {
            let head = seq![(act[0], ms[idx_of(ms, act[0])].path@)];
            assert(head + (resolved_entries(act.drop_first(), ms) + tail) =~= (head
                + resolved_entries(act.drop_first(), ms)) + tail);
        }
    }
}

/// Appending one entry appends its line to the rendered entry text.
proof fn lemma_entries_text_snoc(es: Seq<(Seq<char>, Seq<char>)>, e: (Seq<char>, Seq<char>))
    ensures
        descriptor_entries_text(es.push(e)) == descriptor_entries_text(es) + descriptor_entry(
            e.0,
            e.1,
        ),
    decreases es.len(),
{
    if es.len() == 0 {
        assert(es.push(e)[0] == e);
        assert(es.push(e).drop_first() =~= es);
        assert(descriptor_entries_text(es) =~= Seq::<char>::empty());
        assert(descriptor_entry(e.0, e.1) + descriptor_entries_text(es) =~= descriptor_entries_text(
            es,
        ) + descriptor_entry(e.0, e.1));
    } else {
        assert(es.push(e)[0] == es[0]);
        assert(es.push(e).drop_first() =~= es.drop_first().push(e));
        lemma_entries_text_snoc(es.drop_first(), e);
        assert(descriptor_entry(es[0].0, es[0].1) + (descriptor_entries_text(es.drop_first())
            + descriptor_entry(e.0, e.1)) =~= (descriptor_entry(es[0].0, es[0].1)
            + descriptor_entries_text(es.drop_first())) + descriptor_entry(e.0, e.1));
    }
}

/// Renders the given active names through the catalog into the
/// descriptor text.
pub(crate) fn render_descriptor_text(names: &Vec<String>, registry: &ModuleRegistry) -> (r: String)
    requires
        registry.wf(),
    ensures
        r@ == descriptor_doc(resolved_entries(names.deep_view(), registry.modules@)),
{
    let ghost act = names.deep_view();
    let ghost ms = registry.modules@;
    let mut body = String::new();
    let mut found = false;
    let n = names.len();
    proof {
        assert(act.take(0) =~= Seq::<Seq<char>>::empty());
        assert(resolved_entries(act.take(0), ms) =~= Seq::<(Seq<char>, Seq<char>)>::empty());
    }
    for i in 0..n
        invariant
            n == names.len(),
            act == names.deep_view(),
            ms == registry.modules@,
            registry.wf(),
            body@ == descriptor_entries_text(resolved_entries(act.take(i as int), ms)),
            found == (resolved_entries(act.take(i as int), ms).len() != 0),
    {
        let ghost pre = resolved_entries(act.take(i as int), ms);
        proof {
            assert(names.deep_view()[i as int] == names@[i as int]@);
            assert(act.take(i + 1) =~= act.take(i as int).push(act[i as int]));
            lemma_resolved_snoc(act.take(i as int), ms, act[i as int]);
        }
        match registry.get_module_path(names[i].as_str()) {
            Some(path) => {
                proof {
                    lemma_idx_of(ms, act[i as int]);
                    lemma_entries_text_snoc(
                        pre,
                        (act[i as int], ms[idx_of(ms, act[i as int])].path@),
                    );
                    assert(resolved_entries(act.take(i + 1), ms) =~= pre.push(
                        (act[i as int], ms[idx_of(ms, act[i as int])].path@),
                    ));
                }
                body.append("    \"");
                body.append(path.as_str());
                body.append("\" # ");
                body.append(names[i].as_str());
                body.append("\n");
                found = true;
                proof {
                    assert(body@ =~= descriptor_entries_text(pre) + descriptor_entry(
                        act[i as int],
                        ms[idx_of(ms, act[i as int])].path@,
                    ));
                }
            },
            None => {
                proof {
                    assert(resolved_entries(act.take(i + 1), ms) =~= pre);
                }
            },
        }
    }
    proof {
        assert(act.take(n as int) =~= act);
    }
    let mut out = String::from_str("# runtime-module import list\n{ ... }:\n{\n");
    if found {
        out.append("  imports = [\n");
        out.append(body.as_str());
        out.append("  ];\n");
    } else {
        out.append("  # No active modules\n");
    }
    out.append("}\n");
    proof {
        assert(out@ =~= descriptor_doc(resolved_entries(act, ms)));
    }
    out
}

} // verus!
