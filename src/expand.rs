//! Expansion of invocations against a registry of definitions.
use vstd::prelude::*;
use crate::text::{chars_of, string_of};
use crate::grammar::{
    invocation_at, lemma_invocation_at, parse_invocation, seqs_of, strip_decls, strip_from,
    lemma_decl_at, parse_decl, copy_range,
};
use crate::definition::{Definition, DefinitionModel, models_of, strings_of};

verus! {

/// The marker `$p$` that a bound argument replaces in a body.
pub open spec fn placeholder(p: Seq<char>) -> Seq<char> {
    seq!['$'] + p + seq!['$']
}

/// Whether `pat`, not empty, stands in `s` at position `i`.
pub open spec fn occurs_at(s: Seq<char>, pat: Seq<char>, i: int) -> bool {
    0 < pat.len() && 0 <= i && i + pat.len() <= s.len() && s.subrange(i, i + pat.len()) == pat
}

/// `s` from position `i` on, with each occurrence of `pat` replaced by `r`,
/// leftmost first and none overlapping another.
pub open spec fn replace_from(s: Seq<char>, pat: Seq<char>, r: Seq<char>, i: int) -> Seq<char>
    decreases s.len() - i,
{
    if 0 <= i < s.len() {
        if occurs_at(s, pat, i) {
            r + replace_from(s, pat, r, i + pat.len())
        } else {
            seq![s[i]] + replace_from(s, pat, r, i + 1)
        }
    } else {
        Seq::empty()
    }
}

pub open spec fn replace_all(s: Seq<char>, pat: Seq<char>, r: Seq<char>) -> Seq<char> {
    replace_from(s, pat, r, 0)
}

/// `body` after the first `n` arguments have replaced the placeholders of
/// their parameters, one parameter after another.
pub open spec fn bind_upto(body: Seq<char>, params: Seq<Seq<char>>, args: Seq<Seq<char>>, n: nat) -> Seq<char>
    decreases n,
{
    if n == 0 {
        body
    } else {
        replace_all(
            bind_upto(body, params, args, (n - 1) as nat),
            placeholder(params[n - 1]),
            args[n - 1],
        )
    }
}

/// What an invocation of `d` with `args` is replaced by; with no arguments,
/// the body as it stands.
pub open spec fn bind(d: DefinitionModel, args: Seq<Seq<char>>) -> Seq<char> {
    bind_upto(d.contents, d.parameters, args, args.len())
}

/// The pass of `d` over `t` from position `i` on: each invocation of `d`
/// replaced by its binding, leftmost first; or the first argument that has no
/// parameter to bind to.
pub open spec fn pass_from(t: Seq<char>, d: DefinitionModel, i: int) -> Result<Seq<char>, Seq<char>>
    decreases t.len() - i,
    via pass_from_decreases
{
    if 0 <= i < t.len() {
        match invocation_at(t, i, d.name) {
            Some((args, e)) => if args.len() > d.parameters.len() {
                Err(args[d.parameters.len() as int])
            } else {
                match pass_from(t, d, e) {
                    Ok(rest) => Ok(bind(d, args) + rest),
                    Err(v) => Err(v),
                }
            },
            None => match pass_from(t, d, i + 1) {
                Ok(rest) => Ok(seq![t[i]] + rest),
                Err(v) => Err(v),
            },
        }
    } else {
        Ok(Seq::empty())
    }
}

#[via_fn]
proof fn pass_from_decreases(t: Seq<char>, d: DefinitionModel, i: int) {
    lemma_invocation_at(t, i, d.name);
}

pub open spec fn pass(t: Seq<char>, d: DefinitionModel) -> Result<Seq<char>, Seq<char>> {
    pass_from(t, d, 0)
}

/// An invocation with more arguments than its definition has parameters.
pub struct Overflow {
    pub name: Seq<char>,
    pub total: nat,
    pub value: Seq<char>,
}

/// `t` after the passes of the first `k` definitions, each pass followed by
/// the removal of the declaration blocks.
pub open spec fn expand_upto(t: Seq<char>, defs: Seq<DefinitionModel>, k: nat) -> Result<Seq<char>, Overflow>
    decreases k,
{
    if k == 0 {
        Ok(t)
    } else {
        match expand_upto(t, defs, (k - 1) as nat) {
            Ok(u) => match pass(u, defs[k - 1]) {
                Ok(v) => Ok(strip_decls(v)),
                Err(value) => Err(
                    Overflow { name: defs[k - 1].name, total: defs[k - 1].parameters.len(), value },
                ),
            },
            Err(o) => Err(o),
        }
    }
}

/// The expansion of `t` against the registry `defs`.
pub open spec fn expand(t: Seq<char>, defs: Seq<DefinitionModel>) -> Result<Seq<char>, Overflow> {
    expand_upto(t, defs, defs.len())
}

/// Once a pass has failed, later definitions change nothing.
proof fn lemma_failure_stays(t: Seq<char>, defs: Seq<DefinitionModel>, k: nat, n: nat)
    requires
        k <= n,
        expand_upto(t, defs, k) is Err,
    ensures
        expand_upto(t, defs, n) == expand_upto(t, defs, k),
    decreases n - k,
{
    if k < n {
        lemma_failure_stays(t, defs, k, (n - 1) as nat);
    }
}

/// Why a run fails.
#[derive(Debug, Clone, PartialEq, Eq)]
pub enum ExpandError {
    /// An invocation of `name` gave an argument, the `index`-th counting from
    /// one, beyond the `total` parameters of the definition; `value` is that
    /// argument.
    ArgumentOverflow { name: String, index: usize, total: usize, value: String },
    /// No document was given.
    NoInputProvided,
}

/// Whether `e` is the error that reports `o`.
pub open spec fn reports(e: ExpandError, o: Overflow) -> bool {
    match e {
        ExpandError::ArgumentOverflow { name, index, total, value } => name@ == o.name && total
            == o.total && index == o.total + 1 && value@ == o.value,
        ExpandError::NoInputProvided => false,
    }
}

/// A definition with its parts as characters.
struct Template {
    name: Vec<char>,
    params: Vec<Vec<char>>,
    body: Vec<char>,
}

impl Template {
    spec fn models(&self, d: DefinitionModel) -> bool {
        self.name@ == d.name && seqs_of(self.params@) == d.parameters && self.body@ == d.contents
    }
}

fn template_of(d: &Definition) -> (r: Template)
    ensures
        r.models(d@),
{
    let mut params: Vec<Vec<char>> = Vec::new();
    let mut i: usize = 0;
    while i < d.parameters.len()
        invariant
            i <= d.parameters.len(),
            seqs_of(params@) == strings_of(d.parameters@).take(i as int),
        decreases d.parameters.len() - i,
    {
        let p = chars_of(d.parameters[i].as_str());
        let ghost before = params@;
        params.push(p);
        assert(seqs_of(params@) =~= seqs_of(before).push(p@));
        i = i + 1;
        assert(strings_of(d.parameters@).take(i as int) =~= strings_of(d.parameters@).take(i - 1 as int).push(d.parameters@[i - 1]@));
    }
    assert(strings_of(d.parameters@).take(i as int) =~= strings_of(d.parameters@));
    Template { name: chars_of(d.name.as_str()), params, body: chars_of(d.contents.as_str()) }
}

fn push_all(out: &mut Vec<char>, r: &Vec<char>)
    ensures
        final(out)@ == old(out)@ + r@,
{
    let mut j: usize = 0;
    while j < r.len()
        invariant
            j <= r.len(),
            out@ == old(out)@ + r@.take(j as int),
        decreases r.len() - j,
    {
        out.push(r[j]);
        j = j + 1;
        assert(r@.take(j as int) =~= r@.take(j - 1 as int).push(r@[j - 1]));
    }
    assert(r@.take(j as int) =~= r@);
}

fn occurs(s: &Vec<char>, pat: &Vec<char>, i: usize) -> (r: bool)
    requires
        i <= s.len(),
    ensures
        r == occurs_at(s@, pat@, i as int),
{
    if pat.len() == 0 || pat.len() > s.len() - i {
        return false;
    }
    let mut k: usize = 0;
    while k < pat.len()
        invariant
            0 < pat.len() <= s.len() - i,
            k <= pat.len(),
            forall|m: int| 0 <= m < k ==> s@[i + m] == pat@[m],
        decreases pat.len() - k,
    {
        if s[i + k] != pat[k] {
            assert(s@.subrange(i as int, i + pat.len())[k as int] != pat@[k as int]);
            return false;
        }
        k = k + 1;
    }
    assert(s@.subrange(i as int, i + pat.len()) =~= pat@);
    true
}

/// `s` with each occurrence of `pat` replaced by `r`, leftmost first and none
/// overlapping another; the replacements are not searched again.
pub fn replace_literal(s: &Vec<char>, pat: &Vec<char>, r: &Vec<char>) -> (out: Vec<char>)
    ensures
        out@ == replace_all(s@, pat@, r@),
{
    let mut out: Vec<char> = Vec::new();
    let mut i: usize = 0;
    while i < s.len()
        invariant
            i <= s.len(),
            out@ + replace_from(s@, pat@, r@, i as int) == replace_all(s@, pat@, r@),
        decreases s.len() - i,
    {
        let ghost before = out@;
        if occurs(s, pat, i) {
            push_all(&mut out, r);
            assert(out@ + replace_from(s@, pat@, r@, i + pat.len()) =~= before + (r@ + replace_from(s@, pat@, r@, i + pat.len())));
            i = i + pat.len();
        } else {
            out.push(s[i]);
            assert(out@ + replace_from(s@, pat@, r@, i + 1) =~= before + (seq![s@[i as int]] + replace_from(s@, pat@, r@, i + 1)));
            i = i + 1;
        }
    }
    assert(out@ + replace_from(s@, pat@, r@, i as int) =~= out@);
    out
}

fn marker(p: &Vec<char>) -> (r: Vec<char>)
    ensures
        r@ == placeholder(p@),
{
    let mut r: Vec<char> = Vec::new();
    r.push('$');
    push_all(&mut r, p);
    r.push('$');
    assert(r@ =~= placeholder(p@));
    r
}

fn bind_args(d: &Template, args: &Vec<Vec<char>>, m: Ghost<DefinitionModel>) -> (r: Vec<char>)
    requires
        d.models(m@),
        args.len() <= d.params.len(),
    ensures
        r@ == bind(m@, seqs_of(args@)),
{
    let mut insert = copy_range(&d.body, 0, d.body.len());
    assert(d.body@.subrange(0, d.body.len() as int) =~= d.body@);
    let mut j: usize = 0;
    while j < args.len()
        invariant
            j <= args.len() <= d.params.len(),
            d.models(m@),
            insert@ == bind_upto(m@.contents, m@.parameters, seqs_of(args@), j as nat),
        decreases args.len() - j,
    {
        let pat = marker(&d.params[j]);
        insert = replace_literal(&insert, &pat, &args[j]);
        j = j + 1;
    }
    insert
}

/// `o` put before the text of `r`.
pub open spec fn prepend(o: Seq<char>, r: Result<Seq<char>, Seq<char>>) -> Result<Seq<char>, Seq<char>> {
    match r {
        Ok(x) => Ok(o + x),
        Err(v) => Err(v),
    }
}

fn run_pass(t: &Vec<char>, d: &Template, m: Ghost<DefinitionModel>) -> (r: Result<Vec<char>, Vec<char>>)
    requires
        d.models(m@),
    ensures
        match (r, pass(t@, m@)) {
            (Ok(v), Ok(sv)) => v@ == sv,
            (Err(v), Err(sv)) => v@ == sv,
            _ => false,
        },
        r is Err ==> d.params.len() < usize::MAX,
{
    let mut out: Vec<char> = Vec::new();
    let mut i: usize = 0;
    while i < t.len()
        invariant
            i <= t.len(),
            d.models(m@),
            pass(t@, m@) == prepend(out@, pass_from(t@, m@, i as int)),
        decreases t.len() - i,
    {
        proof {
            lemma_invocation_at(t@, i as int, m@.name);
        }
        let ghost before = out@;
        match parse_invocation(t, i, &d.name) {
            Some((args, e)) => {
                if args.len() > d.params.len() {
                    let k = d.params.len();
                    return Err(copy_range(&args[k], 0, args[k].len()));
                }
                let b = bind_args(d, &args, m);
                push_all(&mut out, &b);
                assert(prepend(before, pass_from(t@, m@, i as int)) =~= prepend(out@, pass_from(t@, m@, e as int))) by {
                    match pass_from(t@, m@, e as int) {
                        Ok(rest) => assert(before + (b@ + rest) =~= out@ + rest),
                        Err(v) => {},
                    }
                }
                i = e;
            },
            None => {
                out.push(t[i]);
                assert(prepend(before, pass_from(t@, m@, i as int)) =~= prepend(out@, pass_from(t@, m@, i + 1))) by {
                    match pass_from(t@, m@, i + 1) {
                        Ok(rest) => assert(before + (seq![t@[i as int]] + rest) =~= out@ + rest),
                        Err(v) => {},
                    }
                }
                i = i + 1;
            },
        }
    }
    assert(out@ + Seq::<char>::empty() =~= out@);
    Ok(out)
}

/// `t` with its declaration blocks removed.
pub fn strip_declarations(t: &Vec<char>) -> (r: Vec<char>)
    ensures
        r@ == strip_decls(t@),
{
    let mut out: Vec<char> = Vec::new();
    let mut i: usize = 0;
    while i < t.len()
        invariant
            i <= t.len(),
            out@ + strip_from(t@, i as int) == strip_decls(t@),
        decreases t.len() - i,
    {
        proof {
            lemma_decl_at(t@, i as int);
        }
        match parse_decl(t, i) {
            Some(f) => {
                i = f.end;
            },
            None => {
                let ghost before = out@;
                out.push(t[i]);
                assert(out@ + strip_from(t@, i + 1) =~= before + (seq![t@[i as int]] + strip_from(t@, i + 1)));
                i = i + 1;
            },
        }
    }
    assert(out@ + strip_from(t@, i as int) =~= out@);
    out
}

/// Expands `contents` against `definitions`: for each definition in order,
/// each of its invocations is replaced by its body with the arguments bound,
/// then the declaration blocks are removed. Fails on the first invocation that
/// gives more arguments than its definition has parameters.
pub fn insert_definitions(contents: &String, definitions: &Vec<Definition>) -> (r: Result<String, ExpandError>)
    ensures
        match (r, expand(contents@, models_of(definitions@))) {
            (Ok(s), Ok(v)) => s@ == v,
            (Err(e), Err(o)) => reports(e, o),
            _ => false,
        },
{
    let ghost defs = models_of(definitions@);
    let mut cur = chars_of(contents.as_str());
    let mut k: usize = 0;
    while k < definitions.len()
        invariant
            k <= definitions.len(),
            defs == models_of(definitions@),
            expand_upto(contents@, defs, k as nat) == Ok::<Seq<char>, Overflow>(cur@),
        decreases definitions.len() - k,
    {
        let d = template_of(&definitions[k]);
        match run_pass(&cur, &d, Ghost(definitions@[k as int]@)) {
            Ok(v) => {
                cur = strip_declarations(&v);
            },
            Err(value) => {
                let total = d.params.len();
                assert(strings_of(definitions@[k as int].parameters@).len() == definitions@[k as int].parameters@.len());
                proof {
                    lemma_failure_stays(contents@, defs, (k + 1) as nat, defs.len());
                }
                return Err(ExpandError::ArgumentOverflow {
                    name: string_of(&d.name),
                    index: total + 1,
                    total,
                    value: string_of(&value),
                });
            },
        }
        k = k + 1;
    }
    Ok(string_of(&cur))
}

} // verus!
