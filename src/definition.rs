//! Definitions and their extraction from a document.
use vstd::prelude::*;
use crate::text::{is_space, is_space_char, chars_of, string_of};
use crate::grammar::{DeclSpan, decl_at, decls_from, lemma_decl_at, parse_decl, seqs_of, space_end, scan_space, copy_range};

verus! {

/// A named template with positional parameters, declared in a document as
/// `$name first second { contents }`.
#[derive(Debug, Clone, PartialEq, Eq)]
pub struct Definition {
    pub name: String,
    pub parameters: Vec<String>,
    pub contents: String,
}

/// What a definition holds, as character sequences.
pub struct DefinitionModel {
    pub name: Seq<char>,
    pub parameters: Seq<Seq<char>>,
    pub contents: Seq<char>,
}

/// The views of a sequence of strings.
pub open spec fn strings_of(v: Seq<String>) -> Seq<Seq<char>> {
    v.map_values(|x: String| x@)
}

impl View for Definition {
    type V = DefinitionModel;

    open spec fn view(&self) -> DefinitionModel {
        DefinitionModel { name: self.name@, parameters: strings_of(self.parameters@), contents: self.contents@ }
    }
}

/// The models of a sequence of definitions.
pub open spec fn models_of(v: Seq<Definition>) -> Seq<DefinitionModel> {
    v.map_values(|d: Definition| d@)
}

/// Start of the run of whitespace that ends at `j`.
pub open spec fn trailing_start(s: Seq<char>, j: int) -> int
    decreases j,
{
    if 0 < j <= s.len() && is_space(s[j - 1]) {
        trailing_start(s, j - 1)
    } else {
        j
    }
}

/// `s` without leading and trailing whitespace.
pub open spec fn trim(s: Seq<char>) -> Seq<char> {
    let a = space_end(s, 0);
    let b = trailing_start(s, s.len() as int);
    if a < b {
        s.subrange(a, b)
    } else {
        Seq::empty()
    }
}

/// `s` from position `i` on, with the whitespace removed that starts a line;
/// `at_start` tells whether `i` is in such whitespace. A run that starts a
/// line takes line breaks along with it, so blank lines go too.
pub open spec fn dedent_from(s: Seq<char>, i: int, at_start: bool) -> Seq<char>
    decreases s.len() - i,
{
    if 0 <= i < s.len() {
        if at_start && is_space(s[i]) {
            dedent_from(s, i + 1, true)
        } else {
            seq![s[i]] + dedent_from(s, i + 1, s[i] == '\n')
        }
    } else {
        Seq::empty()
    }
}

/// The canonical form of a body: trimmed, then each line's leading whitespace
/// removed.
pub open spec fn normalize_body(b: Seq<char>) -> Seq<char> {
    dedent_from(trim(b), 0, true)
}

/// The definition that a declaration block declares.
pub open spec fn definition_of(d: DeclSpan) -> DefinitionModel {
    DefinitionModel { name: d.name, parameters: d.params, contents: normalize_body(d.body) }
}

/// The definitions that `t` declares, in the order of their blocks.
pub open spec fn extract(t: Seq<char>) -> Seq<DefinitionModel> {
    decls_from(t, 0).map_values(|d: DeclSpan| definition_of(d))
}

fn trailing_scan(s: &Vec<char>) -> (r: usize)
    ensures
        r == trailing_start(s@, s.len() as int),
        r <= s.len(),
{
    let mut j = s.len();
    while j > 0 && is_space_char(s[j - 1])
        invariant
            j <= s.len(),
            trailing_start(s@, j as int) == trailing_start(s@, s.len() as int),
        decreases j,
    {
        j = j - 1;
    }
    j
}

fn trim_chars(s: &Vec<char>) -> (r: Vec<char>)
    ensures
        r@ == trim(s@),
{
    let a = scan_space(s, 0);
    let b = trailing_scan(s);
    if a < b {
        copy_range(s, a, b)
    } else {
        Vec::new()
    }
}

/// The canonical form of a body: trimmed, then each line's leading whitespace
/// removed.
pub fn normalize(b: &Vec<char>) -> (r: Vec<char>)
    ensures
        r@ == normalize_body(b@),
{
    let s = trim_chars(b);
    let mut out: Vec<char> = Vec::new();
    let mut at_start = true;
    let mut i: usize = 0;
    while i < s.len()
        invariant
            i <= s.len(),
            out@ + dedent_from(s@, i as int, at_start) == dedent_from(s@, 0, true),
        decreases s.len() - i,
    {
        let c = s[i];
        if at_start && is_space_char(c) {
        } else {
            let ghost before = out@;
            out.push(c);
            at_start = c == '\n';
            assert(out@ + dedent_from(s@, i + 1, at_start) =~= before + (seq![c] + dedent_from(s@, i + 1, at_start)));
        }
        i = i + 1;
    }
    assert(out@ =~= out@ + dedent_from(s@, i as int, at_start));
    out
}

fn strings_from(v: &Vec<Vec<char>>) -> (r: Vec<String>)
    ensures
        strings_of(r@) == seqs_of(v@),
{
    let mut r: Vec<String> = Vec::new();
    let mut i: usize = 0;
    while i < v.len()
        invariant
            i <= v.len(),
            strings_of(r@) == seqs_of(v@).take(i as int),
        decreases v.len() - i,
    {
        let s = string_of(&v[i]);
        let ghost old_r = r@;
        r.push(s);
        assert(strings_of(r@) =~= strings_of(old_r).push(s@));
        i = i + 1;
        assert(seqs_of(v@).take(i as int) =~= seqs_of(v@).take(i - 1 as int).push(v@[i - 1]@));
    }
    assert(seqs_of(v@).take(i as int) =~= seqs_of(v@));
    r
}

/// Appends to `definitions` the definitions that `file_contents` declares, in
/// the order in which their blocks stand.
pub fn get_definitions(file_contents: &String, definitions: &mut Vec<Definition>)
    ensures
        models_of(final(definitions)@) == models_of(old(definitions)@) + extract(file_contents@),
{
    let t = chars_of(file_contents.as_str());
    let ghost mut found: Seq<DeclSpan> = Seq::empty();
    let mut i: usize = 0;
    while i < t.len()
        invariant
            i <= t.len(),
            t@ == file_contents@,
            decls_from(t@, 0) == found + decls_from(t@, i as int),
            models_of(definitions@) == models_of(old(definitions)@) + found.map_values(
                |d: DeclSpan| definition_of(d),
            ),
        decreases t.len() - i,
    {
        proof {
            lemma_decl_at(t@, i as int);
        }
        match parse_decl(&t, i) {
            Some(f) => {
                let ghost d = decl_at(t@, i as int)->Some_0;
                let body = copy_range(&t, f.body_start, f.body_end);
                let contents = normalize(&body);
                let def = Definition { name: string_of(&f.name), parameters: strings_from(&f.params), contents: string_of(&contents) };
                let ghost old_defs = definitions@;
                definitions.push(def);
                proof {
                    assert(def@ == definition_of(d));
                    assert(found + decls_from(t@, i as int) =~= (found + seq![d]) + decls_from(t@, d.end));
                    found = found + seq![d];
                    assert(models_of(definitions@) =~= models_of(old_defs).push(def@));
                }
                i = f.end;
            },
            None => {
                i = i + 1;
            },
        }
    }
    assert(found + decls_from(t@, i as int) =~= found);
}

} // verus!
