//! The grammar of declarations `$NAME first second { body }` and of invocations
//! `$NAME "a1" "a2" $`, as spec functions over positions in a text, with the
//! scanners that compute them.
use vstd::prelude::*;
use crate::text::{is_space, word_char, is_word, is_space_char};

verus! {

/// End of the run of word characters that starts at `i`.
pub open spec fn word_end(t: Seq<char>, i: int) -> int
    decreases t.len() - i,
{
    if 0 <= i < t.len() && word_char(t[i]) {
        word_end(t, i + 1)
    } else {
        i
    }
}

/// End of the run of whitespace that starts at `i`.
pub open spec fn space_end(t: Seq<char>, i: int) -> int
    decreases t.len() - i,
{
    if 0 <= i < t.len() && is_space(t[i]) {
        space_end(t, i + 1)
    } else {
        i
    }
}

/// First position at or after `i` that holds `c`, or the length of `t`.
pub open spec fn find_char(t: Seq<char>, c: char, i: int) -> int
    decreases t.len() - i,
{
    if 0 <= i < t.len() && t[i] != c {
        find_char(t, c, i + 1)
    } else {
        i
    }
}

/// First position at or after `i` that closes a quoted argument, that is holds
/// `"` or a line break, or the length of `t`.
pub open spec fn quote_end(t: Seq<char>, i: int) -> int
    decreases t.len() - i,
{
    if 0 <= i < t.len() && t[i] != '"' && t[i] != '\n' {
        quote_end(t, i + 1)
    } else {
        i
    }
}

pub proof fn lemma_word_end(t: Seq<char>, i: int)
    requires
        0 <= i <= t.len(),
    ensures
        i <= word_end(t, i) <= t.len(),
        forall|k: int| i <= k < word_end(t, i) ==> word_char(#[trigger] t[k]),
        word_end(t, i) < t.len() ==> !word_char(t[word_end(t, i)]),
    decreases t.len() - i,
{
    if i < t.len() && word_char(t[i]) {
        lemma_word_end(t, i + 1);
    }
}

pub proof fn lemma_space_end(t: Seq<char>, i: int)
    requires
        0 <= i <= t.len(),
    ensures
        i <= space_end(t, i) <= t.len(),
        forall|k: int| i <= k < space_end(t, i) ==> is_space(#[trigger] t[k]),
        space_end(t, i) < t.len() ==> !is_space(t[space_end(t, i)]),
    decreases t.len() - i,
{
    if i < t.len() && is_space(t[i]) {
        lemma_space_end(t, i + 1);
    }
}

pub proof fn lemma_find_char(t: Seq<char>, c: char, i: int)
    requires
        0 <= i <= t.len(),
    ensures
        i <= find_char(t, c, i) <= t.len(),
        forall|k: int| i <= k < find_char(t, c, i) ==> #[trigger] t[k] != c,
        find_char(t, c, i) < t.len() ==> t[find_char(t, c, i)] == c,
    decreases t.len() - i,
{
    if i < t.len() && t[i] != c {
        lemma_find_char(t, c, i + 1);
    }
}

pub proof fn lemma_quote_end(t: Seq<char>, i: int)
    requires
        0 <= i <= t.len(),
    ensures
        i <= quote_end(t, i) <= t.len(),
    decreases t.len() - i,
{
    if i < t.len() && t[i] != '"' && t[i] != '\n' {
        lemma_quote_end(t, i + 1);
    }
}

/// The parameters of a declaration and the position of its opening brace,
/// read from `i`, the end of the name or of the previous parameter.
pub open spec fn header_from(t: Seq<char>, i: int) -> Option<(Seq<Seq<char>>, int)>
    decreases t.len() - i,
    via header_from_decreases
{
    if 0 <= i <= t.len() {
        let s = space_end(t, i);
        if s < t.len() && t[s] == '{' {
            Some((Seq::empty(), s))
        } else if i < s < t.len() && word_char(t[s]) {
            let e = word_end(t, s);
            match header_from(t, e) {
                Some((ps, b)) => Some((seq![t.subrange(s, e)] + ps, b)),
                None => None,
            }
        } else {
            None
        }
    } else {
        None
    }
}

#[via_fn]
proof fn header_from_decreases(t: Seq<char>, i: int) {
    if 0 <= i <= t.len() {
        lemma_space_end(t, i);
        let s = space_end(t, i);
        if i < s < t.len() {
            lemma_word_end(t, s);
        }
    }
}

/// A declaration block found in a text: its name, parameters, raw body, and
/// the position just past its closing brace.
pub struct DeclSpan {
    pub name: Seq<char>,
    pub params: Seq<Seq<char>>,
    pub body: Seq<char>,
    pub end: int,
}

/// The declaration block that starts at `i`, if there is one: `$`, a word,
/// whitespace separated words, `{`, and text up to the nearest `}`.
pub open spec fn decl_at(t: Seq<char>, i: int) -> Option<DeclSpan> {
    if 0 <= i < t.len() && t[i] == '$' && word_end(t, i + 1) > i + 1 {
        let n = word_end(t, i + 1);
        match header_from(t, n) {
            Some((ps, b)) => {
                let c = find_char(t, '}', b + 1);
                if c < t.len() {
                    Some(DeclSpan { name: t.subrange(i + 1, n), params: ps, body: t.subrange(b + 1, c), end: c + 1 })
                } else {
                    None
                }
            },
            None => None,
        }
    } else {
        None
    }
}

pub proof fn lemma_header_from(t: Seq<char>, i: int)
    requires
        0 <= i <= t.len(),
    ensures
        header_from(t, i) matches Some((ps, b)) ==> i <= b < t.len() && t[b] == '{',
    decreases t.len() - i,
{
    lemma_space_end(t, i);
    let s = space_end(t, i);
    if s < t.len() && t[s] == '{' {
    } else if i < s < t.len() && word_char(t[s]) {
        lemma_word_end(t, s);
        lemma_header_from(t, word_end(t, s));
    }
}

pub proof fn lemma_decl_at(t: Seq<char>, i: int)
    requires
        0 <= i < t.len(),
    ensures
        decl_at(t, i) matches Some(d) ==> i < d.end <= t.len(),
{
    if t[i] == '$' && word_end(t, i + 1) > i + 1 {
        lemma_word_end(t, i + 1);
        let n = word_end(t, i + 1);
        lemma_header_from(t, n);
        if let Some((ps, b)) = header_from(t, n) {
            lemma_find_char(t, '}', b + 1);
        }
    }
}

/// The declaration blocks of `t` from position `i` on, leftmost first, none
/// overlapping another.
pub open spec fn decls_from(t: Seq<char>, i: int) -> Seq<DeclSpan>
    decreases t.len() - i,
    via decls_from_decreases
{
    if 0 <= i < t.len() {
        match decl_at(t, i) {
            Some(d) => seq![d] + decls_from(t, d.end),
            None => decls_from(t, i + 1),
        }
    } else {
        Seq::empty()
    }
}

#[via_fn]
proof fn decls_from_decreases(t: Seq<char>, i: int) {
    if 0 <= i < t.len() {
        lemma_decl_at(t, i);
    }
}

/// `t` with the declaration blocks from position `i` on removed.
pub open spec fn strip_from(t: Seq<char>, i: int) -> Seq<char>
    decreases t.len() - i,
    via strip_from_decreases
{
    if 0 <= i < t.len() {
        match decl_at(t, i) {
            Some(d) => strip_from(t, d.end),
            None => seq![t[i]] + strip_from(t, i + 1),
        }
    } else {
        Seq::empty()
    }
}

#[via_fn]
proof fn strip_from_decreases(t: Seq<char>, i: int) {
    if 0 <= i < t.len() {
        lemma_decl_at(t, i);
    }
}

/// `t` with every declaration block that a left to right scan finds removed.
pub open spec fn strip_decls(t: Seq<char>) -> Seq<char> {
    strip_from(t, 0)
}

/// The quoted arguments of an invocation and the position just past its
/// closing `$`, read from `i`, the end of the name or of the previous argument.
pub open spec fn args_from(t: Seq<char>, i: int) -> Option<(Seq<Seq<char>>, int)>
    decreases t.len() - i,
    via args_from_decreases
{
    if 0 <= i <= t.len() {
        let s = space_end(t, i);
        if s < t.len() && t[s] == '$' {
            Some((Seq::empty(), s + 1))
        } else if i < s < t.len() && t[s] == '"' {
            let q = quote_end(t, s + 1);
            if q < t.len() && t[q] == '"' {
                match args_from(t, q + 1) {
                    Some((args, e)) => Some((seq![t.subrange(s + 1, q)] + args, e)),
                    None => None,
                }
            } else {
                None
            }
        } else {
            None
        }
    } else {
        None
    }
}

#[via_fn]
proof fn args_from_decreases(t: Seq<char>, i: int) {
    if 0 <= i <= t.len() {
        lemma_space_end(t, i);
        let s = space_end(t, i);
        if i < s < t.len() {
            lemma_quote_end(t, s + 1);
        }
    }
}

pub proof fn lemma_args_from(t: Seq<char>, i: int)
    requires
        0 <= i <= t.len(),
    ensures
        args_from(t, i) matches Some((args, e)) ==> i < e <= t.len(),
    decreases t.len() - i,
{
    lemma_space_end(t, i);
    let s = space_end(t, i);
    if s < t.len() && t[s] == '$' {
    } else if i < s < t.len() && t[s] == '"' {
        lemma_quote_end(t, s + 1);
        let q = quote_end(t, s + 1);
        if q < t.len() && t[q] == '"' {
            lemma_args_from(t, q + 1);
        }
    }
}

/// The invocation of the template called `name` that starts at `i`, if there
/// is one: its arguments and the position just past it.
pub open spec fn invocation_at(t: Seq<char>, i: int, name: Seq<char>) -> Option<(Seq<Seq<char>>, int)> {
    if 0 <= i && i + 1 + name.len() <= t.len() && t[i] == '$' && t.subrange(i + 1, i + 1 + name.len())
        == name {
        args_from(t, i + 1 + name.len())
    } else {
        None
    }
}

pub proof fn lemma_invocation_at(t: Seq<char>, i: int, name: Seq<char>)
    ensures
        invocation_at(t, i, name) matches Some((args, e)) ==> 0 <= i < e <= t.len(),
{
    if 0 <= i && i + 1 + name.len() <= t.len() {
        lemma_args_from(t, i + 1 + name.len());
    }
}

/// The views of a sequence of character vectors.
pub open spec fn seqs_of(v: Seq<Vec<char>>) -> Seq<Seq<char>> {
    v.map_values(|x: Vec<char>| x@)
}

pub(crate) fn scan_word(t: &Vec<char>, i: usize) -> (r: usize)
    requires
        i <= t.len(),
    ensures
        r == word_end(t@, i as int),
        i <= r <= t.len(),
{
    let mut j = i;
    while j < t.len() && is_word(t[j])
        invariant
            i <= j <= t.len(),
            word_end(t@, j as int) == word_end(t@, i as int),
        decreases t.len() - j,
    {
        j = j + 1;
    }
    j
}

pub(crate) fn scan_space(t: &Vec<char>, i: usize) -> (r: usize)
    requires
        i <= t.len(),
    ensures
        r == space_end(t@, i as int),
        i <= r <= t.len(),
{
    let mut j = i;
    while j < t.len() && is_space_char(t[j])
        invariant
            i <= j <= t.len(),
            space_end(t@, j as int) == space_end(t@, i as int),
        decreases t.len() - j,
    {
        j = j + 1;
    }
    j
}

pub(crate) fn scan_to_char(t: &Vec<char>, c: char, i: usize) -> (r: usize)
    requires
        i <= t.len(),
    ensures
        r == find_char(t@, c, i as int),
        i <= r <= t.len(),
{
    let mut j = i;
    while j < t.len() && t[j] != c
        invariant
            i <= j <= t.len(),
            find_char(t@, c, j as int) == find_char(t@, c, i as int),
        decreases t.len() - j,
    {
        j = j + 1;
    }
    j
}

fn scan_quote(t: &Vec<char>, i: usize) -> (r: usize)
    requires
        i <= t.len(),
    ensures
        r == quote_end(t@, i as int),
        i <= r <= t.len(),
{
    let mut j = i;
    while j < t.len() && t[j] != '"' && t[j] != '\n'
        invariant
            i <= j <= t.len(),
            quote_end(t@, j as int) == quote_end(t@, i as int),
        decreases t.len() - j,
    {
        j = j + 1;
    }
    j
}

/// A copy of `t[a..b]`.
pub(crate) fn copy_range(t: &Vec<char>, a: usize, b: usize) -> (r: Vec<char>)
    requires
        a <= b <= t.len(),
    ensures
        r@ == t@.subrange(a as int, b as int),
{
    let mut r: Vec<char> = Vec::new();
    let mut j = a;
    while j < b
        invariant
            a <= j <= b <= t.len(),
            r@ == t@.subrange(a as int, j as int),
        decreases b - j,
    {
        r.push(t[j]);
        j = j + 1;
        assert(r@ =~= t@.subrange(a as int, j as int));
    }
    r
}

/// `ps` put before the list that `r` holds, if it holds one.
pub open spec fn after(ps: Seq<Seq<char>>, r: Option<(Seq<Seq<char>>, int)>) -> Option<(Seq<Seq<char>>, int)> {
    match r {
        Some((qs, b)) => Some((ps + qs, b)),
        None => None,
    }
}

fn parse_header(t: &Vec<char>, i: usize) -> (r: Option<(Vec<Vec<char>>, usize)>)
    requires
        i <= t.len(),
    ensures
        match (r, header_from(t@, i as int)) {
            (Some((ps, b)), Some((sps, sb))) => seqs_of(ps@) == sps && b == sb,
            (None, None) => true,
            _ => false,
        },
{
    let mut ps: Vec<Vec<char>> = Vec::new();
    let mut pos = i;
    assert(seqs_of(ps@) =~= Seq::<Seq<char>>::empty());
    assert(after(Seq::empty(), header_from(t@, i as int)) =~= header_from(t@, i as int)) by {
        if let Some((qs, b)) = header_from(t@, i as int) {
            assert(Seq::<Seq<char>>::empty() + qs =~= qs);
        }
    }
    loop
        invariant
            i <= pos <= t.len(),
            header_from(t@, i as int) == after(seqs_of(ps@), header_from(t@, pos as int)),
        decreases t.len() - pos,
    {
        let s = scan_space(t, pos);
        if s < t.len() && t[s] == '{' {
            assert(seqs_of(ps@) + Seq::<Seq<char>>::empty() =~= seqs_of(ps@));
            return Some((ps, s));
        } else if pos < s && s < t.len() && is_word(t[s]) {
            let e = scan_word(t, s);
            proof {
                lemma_word_end(t@, s + 1);
            }
            let p = copy_range(t, s, e);
            let ghost before = seqs_of(ps@);
            ps.push(p);
            assert(seqs_of(ps@) =~= before.push(p@));
            assert(after(before, header_from(t@, pos as int)) == after(seqs_of(ps@), header_from(t@, e as int))) by {
                if let Some((qs, b)) = header_from(t@, e as int) {
                    assert(before + (seq![p@] + qs) =~= before.push(p@) + qs);
                }
            }
            pos = e;
        } else {
            return None;
        }
    }
}

/// A declaration block found by the scanner: its name, its parameters, and
/// positions of its body and of its end.
pub(crate) struct DeclFound {
    pub name: Vec<char>,
    pub params: Vec<Vec<char>>,
    pub body_start: usize,
    pub body_end: usize,
    pub end: usize,
}

pub(crate) fn parse_decl(t: &Vec<char>, i: usize) -> (r: Option<DeclFound>)
    requires
        i < t.len(),
    ensures
        match (r, decl_at(t@, i as int)) {
            (Some(f), Some(d)) => f.name@ == d.name && seqs_of(f.params@) == d.params
                && f.body_start <= f.body_end <= t.len() && t@.subrange(f.body_start as int, f.body_end as int) == d.body
                && f.end == d.end,
            (None, None) => true,
            _ => false,
        },
{
    if t[i] != '$' || i + 1 == t.len() {
        return None;
    }
    let n = scan_word(t, i + 1);
    if n == i + 1 {
        return None;
    }
    match parse_header(t, n) {
        Some((ps, b)) => {
            proof {
                lemma_header_from(t@, n as int);
            }
            let c = scan_to_char(t, '}', b + 1);
            if c < t.len() {
                let name = copy_range(t, i + 1, n);
                Some(DeclFound { name, params: ps, body_start: b + 1, body_end: c, end: c + 1 })
            } else {
                None
            }
        },
        None => None,
    }
}

fn parse_args(t: &Vec<char>, i: usize) -> (r: Option<(Vec<Vec<char>>, usize)>)
    requires
        i <= t.len(),
    ensures
        match (r, args_from(t@, i as int)) {
            (Some((args, e)), Some((sargs, se))) => seqs_of(args@) == sargs && e == se,
            (None, None) => true,
            _ => false,
        },
{
    let mut args: Vec<Vec<char>> = Vec::new();
    let mut pos = i;
    assert(seqs_of(args@) =~= Seq::<Seq<char>>::empty());
    assert(after(Seq::empty(), args_from(t@, i as int)) =~= args_from(t@, i as int)) by {
        if let Some((qs, e)) = args_from(t@, i as int) {
            assert(Seq::<Seq<char>>::empty() + qs =~= qs);
        }
    }
    loop
        invariant
            i <= pos <= t.len(),
            args_from(t@, i as int) == after(seqs_of(args@), args_from(t@, pos as int)),
        decreases t.len() - pos,
    {
        let s = scan_space(t, pos);
        if s < t.len() && t[s] == '$' {
            assert(seqs_of(args@) + Seq::<Seq<char>>::empty() =~= seqs_of(args@));
            return Some((args, s + 1));
        } else if pos < s && s < t.len() && t[s] == '"' {
            let q = scan_quote(t, s + 1);
            if q < t.len() && t[q] == '"' {
                let a = copy_range(t, s + 1, q);
                let ghost before = seqs_of(args@);
                args.push(a);
                assert(seqs_of(args@) =~= before.push(a@));
                assert(after(before, args_from(t@, pos as int)) == after(seqs_of(args@), args_from(t@, q + 1))) by {
                    if let Some((qs, e)) = args_from(t@, q + 1) {
                        assert(before + (seq![a@] + qs) =~= before.push(a@) + qs);
                    }
                }
                pos = q + 1;
            } else {
                return None;
            }
        } else {
            return None;
        }
    }
}

pub(crate) fn parse_invocation(t: &Vec<char>, i: usize, name: &Vec<char>) -> (r: Option<(Vec<Vec<char>>, usize)>)
    requires
        i < t.len(),
    ensures
        match (r, invocation_at(t@, i as int, name@)) {
            (Some((args, e)), Some((sargs, se))) => seqs_of(args@) == sargs && e == se,
            (None, None) => true,
            _ => false,
        },
{
    if t[i] != '$' || name.len() >= t.len() - i {
        return None;
    }
    let mut k: usize = 0;
    while k < name.len()
        invariant
            k <= name.len() < t.len() - i,
            forall|m: int| 0 <= m < k ==> t@[i + 1 + m] == name@[m],
        decreases name.len() - k,
    {
        if t[i + 1 + k] != name[k] {
            proof {
                assert(t@.subrange(i + 1, i + 1 + name.len())[k as int] != name@[k as int]);
            }
            return None;
        }
        k = k + 1;
    }
    assert(t@.subrange(i + 1, i + 1 + name.len()) =~= name@);
    parse_args(t, i + 1 + name.len())
}

} // verus!
