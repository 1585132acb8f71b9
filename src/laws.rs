//! Properties of expansion and of a run, proved over the spec functions that
//! the executable contracts use.
use vstd::prelude::*;
use crate::grammar::{decl_at, lemma_decl_at, strip_decls, strip_from, invocation_at};
use crate::definition::{DefinitionModel, extract};
use crate::expand::{Overflow, expand, expand_upto, pass, pass_from};
use crate::process::registry;

verus! {

/// Whether no invocation of `name` starts anywhere in `t`.
pub open spec fn has_no_site(t: Seq<char>, name: Seq<char>) -> bool {
    forall|i: int| 0 <= i < t.len() ==> (#[trigger] invocation_at(t, i, name)) is None
}

/// Whether `t` holds no `$`.
pub open spec fn no_dollar(t: Seq<char>) -> bool {
    forall|i: int| 0 <= i < t.len() ==> #[trigger] t[i] != '$'
}

/// Whether `t` holds no declaration block.
pub open spec fn no_declaration(t: Seq<char>) -> bool {
    forall|i: int| 0 <= i < t.len() ==> (#[trigger] decl_at(t, i)) is None
}

/// `t` after `n` rounds of removing declaration blocks.
pub open spec fn strip_rounds(t: Seq<char>, n: nat) -> Seq<char>
    decreases n,
{
    if n == 0 {
        t
    } else {
        strip_decls(strip_rounds(t, (n - 1) as nat))
    }
}

proof fn lemma_pass_without_sites(t: Seq<char>, d: DefinitionModel, i: int)
    requires
        has_no_site(t, d.name),
        0 <= i <= t.len(),
    ensures
        pass_from(t, d, i) == Ok::<Seq<char>, Seq<char>>(t.subrange(i, t.len() as int)),
    decreases t.len() - i,
{
    if i < t.len() {
        assert(invocation_at(t, i, d.name) is None);
        lemma_pass_without_sites(t, d, i + 1);
        assert(seq![t[i]] + t.subrange(i + 1, t.len() as int) =~= t.subrange(i, t.len() as int));
    } else {
        assert(t.subrange(i, t.len() as int) =~= Seq::<char>::empty());
    }
}

/// A pass over a text that holds no invocation of the definition returns
/// the text unchanged.
pub proof fn law_pass_without_sites(t: Seq<char>, d: DefinitionModel)
    requires
        has_no_site(t, d.name),
    ensures
        pass(t, d) == Ok::<Seq<char>, Seq<char>>(t),
{
    lemma_pass_without_sites(t, d, 0);
    assert(t.subrange(0, t.len() as int) =~= t);
}

/// The empty document expands to the empty document, whatever the registry.
pub proof fn law_empty_document(defs: Seq<DefinitionModel>)
    ensures
        expand(Seq::empty(), defs) == Ok::<Seq<char>, Overflow>(Seq::empty()),
{
    lemma_empty_upto(defs, defs.len());
}

proof fn lemma_empty_upto(defs: Seq<DefinitionModel>, k: nat)
    ensures
        expand_upto(Seq::empty(), defs, k) == Ok::<Seq<char>, Overflow>(Seq::empty()),
    decreases k,
{
    if k > 0 {
        lemma_empty_upto(defs, (k - 1) as nat);
        assert(strip_decls(Seq::<char>::empty()) =~= Seq::<char>::empty());
    }
}

/// A document in which no definition finds an invocation expands to itself
/// with its declaration blocks removed: one round of removal for each
/// definition of the registry. Removing a block can join the text around it
/// into a new invocation; the requirement rules that out round by round.
pub proof fn law_no_invocations(t: Seq<char>, defs: Seq<DefinitionModel>)
    requires
        forall|j: int| 0 <= j < defs.len() ==> has_no_site(#[trigger] strip_rounds(t, j as nat), defs[j].name),
    ensures
        expand(t, defs) == Ok::<Seq<char>, Overflow>(strip_rounds(t, defs.len())),
{
    lemma_no_invocations_upto(t, defs, defs.len());
}

proof fn lemma_no_invocations_upto(t: Seq<char>, defs: Seq<DefinitionModel>, k: nat)
    requires
        k <= defs.len(),
        forall|j: int| 0 <= j < defs.len() ==> has_no_site(#[trigger] strip_rounds(t, j as nat), defs[j].name),
    ensures
        expand_upto(t, defs, k) == Ok::<Seq<char>, Overflow>(strip_rounds(t, k)),
    decreases k,
{
    if k > 0 {
        let j = (k - 1) as nat;
        lemma_no_invocations_upto(t, defs, j);
        assert(has_no_site(strip_rounds(t, j), defs[j as int].name));
        law_pass_without_sites(strip_rounds(t, j), defs[j as int]);
    }
}

proof fn lemma_strip_keeps_no_dollar(t: Seq<char>, i: int)
    requires
        0 <= i <= t.len(),
        forall|k: int| 0 <= k < t.len() && #[trigger] t[k] == '$' ==> decl_at(t, k) is Some,
    ensures
        no_dollar(strip_from(t, i)),
    decreases t.len() - i,
{
    if i < t.len() {
        lemma_decl_at(t, i);
        match decl_at(t, i) {
            Some(d) => lemma_strip_keeps_no_dollar(t, d.end),
            None => {
                lemma_strip_keeps_no_dollar(t, i + 1);
                let r = strip_from(t, i + 1);
                assert forall|k: int| 0 <= k < (seq![t[i]] + r).len() implies #[trigger] (seq![t[i]] + r)[k] != '$' by {
                    if k > 0 {
                        assert((seq![t[i]] + r)[k] == r[k - 1]);
                    }
                }
            },
        }
    }
}

/// A text without `$` holds no declaration block and no invocation.
pub proof fn law_no_dollar_is_inert(t: Seq<char>, name: Seq<char>)
    requires
        no_dollar(t),
    ensures
        no_declaration(t),
        has_no_site(t, name),
        strip_decls(t) == t,
{
    assert forall|i: int| 0 <= i < t.len() implies (#[trigger] invocation_at(t, i, name)) is None by {
        assert(t[i] != '$');
    }
    assert forall|i: int| 0 <= i < t.len() implies (#[trigger] decl_at(t, i)) is None by {
        assert(t[i] != '$');
    }
    lemma_strip_inert(t, 0);
    assert(t.subrange(0, t.len() as int) =~= t);
}

proof fn lemma_strip_inert(t: Seq<char>, i: int)
    requires
        no_dollar(t),
        0 <= i <= t.len(),
    ensures
        strip_from(t, i) == t.subrange(i, t.len() as int),
    decreases t.len() - i,
{
    if i < t.len() {
        assert(t[i] != '$');
        lemma_strip_inert(t, i + 1);
        assert(seq![t[i]] + t.subrange(i + 1, t.len() as int) =~= t.subrange(i, t.len() as int));
    } else {
        assert(t.subrange(i, t.len() as int) =~= Seq::<char>::empty());
    }
}

/// Whether each `$` of `v` begins a declaration block.
pub open spec fn dollars_begin_blocks(v: Seq<char>) -> bool {
    forall|k: int| 0 <= k < v.len() && #[trigger] v[k] == '$' ==> decl_at(v, k) is Some
}

proof fn lemma_inert_rounds(w: Seq<char>, t: Seq<char>, defs: Seq<DefinitionModel>, a: nat, k: nat)
    requires
        a < k <= defs.len(),
        no_dollar(w),
        expand_upto(t, defs, (a + 1) as nat) == Ok::<Seq<char>, Overflow>(w),
    ensures
        expand_upto(t, defs, k) == Ok::<Seq<char>, Overflow>(w),
    decreases k,
{
    if k > a + 1 {
        lemma_inert_rounds(w, t, defs, a, (k - 1) as nat);
        law_no_dollar_is_inert(w, defs[k - 1].name);
        law_pass_without_sites(w, defs[k - 1]);
    }
}

/// Once a pass leaves each `$` of its output at the start of a declaration
/// block, the removal that follows leaves no `$`, so no declaration block
/// survives in the output and no later definition binds anything. (A removal
/// can join the text around a block into a new block or invocation: that
/// needs a `$` that begins no block.)
pub proof fn law_no_declaration_remains(t: Seq<char>, defs: Seq<DefinitionModel>, a: int, u: Seq<char>, v: Seq<char>)
    requires
        0 <= a < defs.len(),
        expand_upto(t, defs, a as nat) == Ok::<Seq<char>, Overflow>(u),
        pass(u, defs[a]) == Ok::<Seq<char>, Seq<char>>(v),
        dollars_begin_blocks(v),
    ensures
        expand(t, defs) == Ok::<Seq<char>, Overflow>(strip_decls(v)),
        no_dollar(strip_decls(v)),
        no_declaration(strip_decls(v)),
        forall|b: int| a < b <= defs.len() ==> #[trigger] expand_upto(t, defs, b as nat) == Ok::<Seq<char>, Overflow>(strip_decls(v)),
{
    lemma_strip_keeps_no_dollar(v, 0);
    let w = strip_decls(v);
    law_no_dollar_is_inert(w, Seq::empty());
    lemma_inert_rounds(w, t, defs, a as nat, defs.len());
    assert forall|b: int| a < b <= defs.len() implies #[trigger] expand_upto(t, defs, b as nat) == Ok::<Seq<char>, Overflow>(w) by {
        lemma_inert_rounds(w, t, defs, a as nat, b as nat);
    }
}

/// Of two definitions that share a name, the earlier one binds the
/// invocations: once its pass leaves each `$` at the start of a declaration
/// block, the pass of the later one finds no invocation and returns the text
/// it reads unchanged.
pub proof fn law_earlier_definition_binds(t: Seq<char>, defs: Seq<DefinitionModel>, a: int, b: int, u: Seq<char>, v: Seq<char>)
    requires
        0 <= a < b < defs.len(),
        defs[a].name == defs[b].name,
        expand_upto(t, defs, a as nat) == Ok::<Seq<char>, Overflow>(u),
        pass(u, defs[a]) == Ok::<Seq<char>, Seq<char>>(v),
        dollars_begin_blocks(v),
    ensures
        expand_upto(t, defs, b as nat) == Ok::<Seq<char>, Overflow>(strip_decls(v)),
        has_no_site(strip_decls(v), defs[b].name),
        pass(strip_decls(v), defs[b]) == Ok::<Seq<char>, Seq<char>>(strip_decls(v)),
{
    law_no_declaration_remains(t, defs, a, u, v);
    assert(expand_upto(t, defs, b as nat) == Ok::<Seq<char>, Overflow>(strip_decls(v)));
    law_no_dollar_is_inert(strip_decls(v), defs[b].name);
    law_pass_without_sites(strip_decls(v), defs[b]);
}

/// A document whose every `$` begins a declaration block, and which holds no
/// invocation of the first definition, expands to itself with its blocks
/// removed, in one round.
pub proof fn law_blocks_only_document(t: Seq<char>, defs: Seq<DefinitionModel>)
    requires
        defs.len() > 0,
        has_no_site(t, defs[0].name),
        dollars_begin_blocks(t),
    ensures
        expand(t, defs) == Ok::<Seq<char>, Overflow>(strip_decls(t)),
{
    law_pass_without_sites(t, defs[0]);
    law_no_declaration_remains(t, defs, 0, t, t);
}

proof fn lemma_registry_prefix(docs: Seq<Seq<char>>, n: int)
    requires
        0 <= n <= docs.len(),
    ensures
        registry(docs.take(n)) == registry(docs).take(registry(docs.take(n)).len() as int),
        registry(docs.take(n)).len() <= registry(docs).len(),
    decreases docs.len(),
{
    if n == docs.len() {
        assert(docs.take(n) =~= docs);
        assert(registry(docs).take(registry(docs).len() as int) =~= registry(docs));
    } else {
        lemma_registry_prefix(docs.drop_last(), n);
        assert(docs.drop_last().take(n) =~= docs.take(n));
        let p = registry(docs.take(n));
        assert(registry(docs).take(p.len() as int) =~= registry(docs.drop_last()).take(p.len() as int));
    }
}

/// Definitions are shared by all documents of a run: the `m`-th definition
/// of document `b` stands in the registry, after those of the documents
/// before it, and every document is expanded against that registry.
pub proof fn law_definitions_are_global(docs: Seq<Seq<char>>, b: int, m: int)
    requires
        0 <= b < docs.len(),
        0 <= m < extract(docs[b]).len(),
    ensures
        registry(docs.take(b)).len() + m < registry(docs).len(),
        registry(docs)[registry(docs.take(b)).len() + m] == extract(docs[b])[m],
{
    lemma_registry_prefix(docs, b + 1);
    assert(docs.take(b + 1).drop_last() =~= docs.take(b));
    assert(docs.take(b + 1).last() == docs[b]);
    let p = registry(docs.take(b + 1));
    assert(p[registry(docs.take(b)).len() + m] == extract(docs[b])[m]);
    assert(registry(docs)[registry(docs.take(b)).len() + m] == registry(docs).take(p.len() as int)[registry(docs.take(b)).len() + m]);
}

} // verus!
