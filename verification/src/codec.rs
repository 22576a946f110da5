//! The serialization contract for the activation set's persisted
//! artifact: a structured record holding the ordered list of active
//! module names, rendered as `{"enabled":["a","b"]}`.
//!
//! Rendering and parsing are exact inverses for name lists that avoid the
//! one reserved character, the double quote; anything malformed parses to
//! the empty list.

use vstd::prelude::*;
use vstd::string::{StrSliceExecFns, StringExecFns};

use crate::state::str_eq;

verus! {

/// The characters that open the rendered record, up to the start of the
/// first entry.
pub open spec fn doc_prefix() -> Seq<char> {
    seq!['{', '"', 'e', 'n', 'a', 'b', 'l', 'e', 'd', '"', ':', '[']
}

/// The characters that close the rendered record.
pub open spec fn doc_suffix() -> Seq<char> {
    seq![']', '}']
}

/// A name may not contain the double quote, the character that delimits
/// entries in the rendered record.
pub open spec fn name_unreserved(n: Seq<char>) -> bool {
    forall|i: int| 0 <= i < n.len() ==> n[i] != '"'
}

/// The rendered form of one name: the name between double quotes.
pub open spec fn quoted(n: Seq<char>) -> Seq<char> {
    seq!['"'] + n + seq!['"']
}

/// The rendered entry list: the quoted names separated by commas.
pub open spec fn items_text(ns: Seq<Seq<char>>) -> Seq<char>
    decreases ns.len(),
{
    if ns.len() == 0 {
        Seq::empty()
    } else if ns.len() == 1 {
        quoted(ns[0])
    } else {
        quoted(ns[0]) + seq![','] + items_text(ns.drop_first())
    }
}

/// The full rendered record for a name list.
pub open spec fn render_doc(ns: Seq<Seq<char>>) -> Seq<char> {
    doc_prefix() + items_text(ns) + doc_suffix()
}

/// The position of the first double quote in `s` at or after `from`, or
/// `s.len()` when there is none.
pub open spec fn find_quote(s: Seq<char>, from: int) -> int
    decreases s.len() - from when from <= s.len()
{
    if from < 0 || from >= s.len() {
        s.len() as int
    } else if s[from] == '"' {
        from
    } else {
        find_quote(s, from + 1)
    }
}

/// Parses a non-empty comma-separated list of quoted names; `None` on any
/// malformation.
pub open spec fn parse_items(s: Seq<char>) -> Option<Seq<Seq<char>>>
    decreases s.len(),
{
    if s.len() < 2 || s[0] != '"' {
        None
    } else {
        let j = find_quote(s, 1);
        if !(1 <= j && j < s.len()) {
            None
        } else {
            let name = s.subrange(1, j);
            if j == s.len() - 1 {
                Some(seq![name])
            } else if s[j + 1] == ',' {
                match parse_items(s.subrange(j + 2, s.len() as int)) {
                    Some(rest) => Some(seq![name] + rest),
                    None => None,
                }
            } else {
                None
            }
        }
    }
}

/// The name list a persisted record holds: the empty list when the text
/// is not a well-formed record.
pub open spec fn parse_doc(s: Seq<char>) -> Seq<Seq<char>> {
    if s.len() >= 14 && s.subrange(0, 12) == doc_prefix() && s.subrange(
        s.len() - 2,
        s.len() as int,
    ) == doc_suffix() {
        let body = s.subrange(12, s.len() - 2);
        if body.len() == 0 {
            Seq::empty()
        } else {
            match parse_items(body) {
                Some(l) => l,
                None => Seq::empty(),
            }
        }
    } else {
        Seq::empty()
    }
}

proof fn lemma_find_quote_at(s: Seq<char>, from: int, k: int)
    requires
        0 <= from <= k < s.len(),
        s[k] == '"',
        forall|i: int| from <= i < k ==> s[i] != '"',
    ensures
        find_quote(s, from) == k,
    decreases k - from,
{
    if from < k {
        lemma_find_quote_at(s, from + 1, k);
    }
}

proof fn lemma_find_quote_absent(s: Seq<char>, from: int)
    requires
        0 <= from <= s.len(),
        forall|i: int| from <= i < s.len() ==> s[i] != '"',
    ensures
        find_quote(s, from) == s.len(),
    decreases s.len() - from,
{
    if from < s.len() {
        lemma_find_quote_absent(s, from + 1);
    }
}

/// Parsing recovers exactly the names a non-empty entry list was rendered
/// from, provided no name holds the reserved character.
proof fn lemma_parse_items_text(ns: Seq<Seq<char>>)
    requires
        ns.len() >= 1,
        forall|k: int| 0 <= k < ns.len() ==> name_unreserved(#[trigger] ns[k]),
    ensures
        parse_items(items_text(ns)) == Some(ns),
    decreases ns.len(),
{
    let s = items_text(ns);
    let n0 = ns[0];
    let q = quoted(n0);
    assert(q.len() == n0.len() + 2);
    assert(q[0] == '"');
    assert(q[n0.len() as int + 1] == '"');
    assert(forall|i: int| 1 <= i < n0.len() + 1 ==> q[i] == n0[i - 1]);
    if ns.len() == 1 {
        assert(s == q);
        assert(s[0] == '"');
        lemma_find_quote_at(s, 1, n0.len() as int + 1);
        let j = find_quote(s, 1);
        assert(j == n0.len() as int + 1);
        assert(j == s.len() - 1);
        assert(s.subrange(1, j) =~= n0);
        assert(parse_items(s) == Some(seq![n0]));
        assert(seq![n0] =~= ns);
    } else {
        let rest = items_text(ns.drop_first());
        assert(s == q + seq![','] + rest);
        assert(s.len() == n0.len() + 3 + rest.len());
        assert(forall|i: int| 0 <= i < q.len() ==> s[i] == q[i]);
        assert(s[0] == '"');
        let j = n0.len() as int + 1;
        assert(s[j] == '"');
        lemma_find_quote_at(s, 1, j);
        assert(s[j + 1] == ',');
        assert(j < s.len() - 1);
        assert(s.subrange(1, j) =~= n0);
        assert(forall|k: int|
            0 <= k < ns.drop_first().len() ==> name_unreserved(#[trigger] ns.drop_first()[k]));
        lemma_parse_items_text(ns.drop_first());
        assert(s.subrange(j + 2, s.len() as int) =~= rest);
        assert(parse_items(s) == Some(seq![n0] + ns.drop_first()));
        assert(seq![n0] + ns.drop_first() =~= ns);
    }
}

/// Round trip: rendering a name list and parsing the result yields the
/// same list again, for every list of names free of the reserved
/// character.
pub proof fn lemma_render_parse_round_trip(ns: Seq<Seq<char>>)
    requires
        forall|k: int| 0 <= k < ns.len() ==> name_unreserved(#[trigger] ns[k]),
    ensures
        parse_doc(render_doc(ns)) == ns,
{
    let s = render_doc(ns);
    let body = items_text(ns);
    assert(s.len() == 14 + body.len());
    assert(s.subrange(0, 12) =~= doc_prefix());
    assert(s.subrange(s.len() - 2, s.len() as int) =~= doc_suffix());
    assert(s.subrange(12, s.len() - 2) =~= body);
    if ns.len() == 0 {
        assert(body.len() == 0);
        assert(parse_doc(s) =~= ns);
    } else {
        assert(body.len() >= 2);
        lemma_parse_items_text(ns);
    }
}

/// Renders the name list as the persisted record.
pub(crate) fn render_names(names: &Vec<String>) -> (r: String)
    ensures
        r@ == render_doc(names.deep_view()),
{
    let ghost ns = names.deep_view();
    let mut out = String::from_str("{\"enabled\":[");
    proof {
        reveal_strlit("{\"enabled\":[");
        assert(out@ =~= doc_prefix());
        assert(ns.take(0) =~= Seq::<Seq<char>>::empty());
        assert(out@ =~= doc_prefix() + items_text(ns.take(0)));
    }
    let n = names.len();
    for i in 0..n
        invariant
            n == names.len(),
            ns == names.deep_view(),
            out@ == doc_prefix() + items_text(ns.take(i as int)),
    {
        if i > 0 {
            out.append(",");
        }
        out.append("\"");
        out.append(names[i].as_str());
        out.append("\"");
        proof {
            reveal_strlit(",");
            reveal_strlit("\"");
            assert(","@ =~= seq![',']);
            assert("\""@ =~= seq!['"']);
            lemma_items_snoc(ns.take(i as int), ns[i as int]);
            assert(ns.take(i + 1) =~= ns.take(i as int).push(ns[i as int]));
            if i == 0 {
                assert(out@ =~= doc_prefix() + items_text(ns.take(i + 1)));
            } else {
                assert(out@ =~= doc_prefix() + (items_text(ns.take(i as int)) + seq![',']
                    + quoted(ns[i as int])));
            }
        }
    }
    out.append("]}");
    proof {
        reveal_strlit("]}");
        assert("]}"@ =~= doc_suffix());
        assert(ns.take(n as int) =~= ns);
        assert(out@ =~= render_doc(ns));
    }
    out
}

proof fn lemma_items_snoc(ns: Seq<Seq<char>>, x: Seq<char>)
    ensures
        items_text(ns.push(x)) == (if ns.len() == 0 {
            quoted(x)
        } else {
            items_text(ns) + seq![','] + quoted(x)
        }),
    decreases ns.len(),
{
    let w = ns.push(x);
    if ns.len() == 0 {
        assert(w.len() == 1);
        assert(w[0] == x);
    } else {
        assert(w[0] == ns[0]);
        assert(w.drop_first() =~= ns.drop_first().push(x));
        lemma_items_snoc(ns.drop_first(), x);
        if ns.len() == 1 {
            assert(ns.drop_first().len() == 0);
            assert(items_text(w) == quoted(ns[0]) + seq![','] + quoted(x));
            assert(items_text(ns) == quoted(ns[0]));
        } else {
            assert(items_text(w) == quoted(w[0]) + seq![','] + items_text(w.drop_first()));
            assert(quoted(ns[0]) + seq![','] + (items_text(ns.drop_first()) + seq![',']
                + quoted(x)) =~= (quoted(ns[0]) + seq![','] + items_text(ns.drop_first()))
                + seq![','] + quoted(x));
        }
    }
}

/// Parses one non-empty entry list; mirrors `parse_items`.
fn parse_items_exec(s: &str) -> (r: Option<Vec<String>>)
    ensures
        match r {
            Some(v) => parse_items(s@) == Some(v.deep_view()),
            None => parse_items(s@) is None,
        },
    decreases s@.len(),
{
    let n = s.unicode_len();
    if n < 2 {
        return None;
    }
    if s.get_char(0) != '"' {
        return None;
    }
    let mut j: usize = 1;
    while j < n && s.get_char(j) != '"'
        invariant
            1 <= j <= n,
            n == s@.len(),
            forall|i: int| 1 <= i < j ==> s@[i] != '"',
        decreases n - j,
    {
        j += 1;
    }
    if j == n {
        proof {
            lemma_find_quote_absent(s@, 1);
        }
        return None;
    }
    proof {
        lemma_find_quote_at(s@, 1, j as int);
    }
    let name: String = s.substring_char(1, j).to_owned();
    if j == n - 1 {
        let v = vec![name];
        proof {
            assert(v.deep_view() =~= seq![s@.subrange(1, j as int)]);
        }
        return Some(v);
    }
    if s.get_char(j + 1) == ',' {
        let rest = s.substring_char(j + 2, n);
        match parse_items_exec(rest) {
            Some(mut v) => {
                let ghost rest_deep = v.deep_view();
                v.insert(0, name);
                proof {
                    assert(v.deep_view() =~= seq![s@.subrange(1, j as int)] + rest_deep);
                }
                Some(v)
            },
            None => None,
        }
    } else {
        None
    }
}

/// Parses a persisted record back into its name list; mirrors
/// `parse_doc`, yielding the empty list on malformed text.
pub(crate) fn parse_names(content: &str) -> (r: Vec<String>)
    ensures
        r.deep_view() == parse_doc(content@),
{
    let n = content.unicode_len();
    if n < 14 {
        let r: Vec<String> = Vec::new();
        proof {
            assert(r.deep_view() =~= parse_doc(content@));
        }
        return r;
    }
    let head = content.substring_char(0, 12);
    let head_ok = str_eq(head, "{\"enabled\":[");
    proof {
        reveal_strlit("{\"enabled\":[");
        assert("{\"enabled\":["@ =~= doc_prefix());
    }
    if !head_ok {
        let r: Vec<String> = Vec::new();
        proof {
            assert(r.deep_view() =~= parse_doc(content@));
        }
        return r;
    }
    let tail = content.substring_char(n - 2, n);
    let tail_ok = str_eq(tail, "]}");
    proof {
        reveal_strlit("]}");
        assert("]}"@ =~= doc_suffix());
    }
    if !tail_ok {
        let r: Vec<String> = Vec::new();
        proof {
            assert(r.deep_view() =~= parse_doc(content@));
        }
        return r;
    }
    let body = content.substring_char(12, n - 2);
    if body.unicode_len() == 0 {
        let r: Vec<String> = Vec::new();
        proof {
            assert(r.deep_view() =~= parse_doc(content@));
        }
        return r;
    }
    match parse_items_exec(body) {
        Some(v) => v,
        None => {
            let r: Vec<String> = Vec::new();
            proof {
                assert(r.deep_view() =~= parse_doc(content@));
            }
            r
        },
    }
}

} // verus!
