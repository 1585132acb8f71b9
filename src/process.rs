//! The two phases of a run: collect the definitions of every document, then
//! expand every document against all of them.
use vstd::prelude::*;
use crate::definition::{Definition, DefinitionModel, extract, get_definitions, models_of, strings_of};
use crate::expand::{ExpandError, Overflow, expand, insert_definitions, reports};

verus! {

/// The registry of a list of documents: the definitions of each, in the
/// order of the documents, then in the order of their blocks.
pub open spec fn registry(docs: Seq<Seq<char>>) -> Seq<DefinitionModel>
    decreases docs.len(),
{
    if docs.len() == 0 {
        Seq::empty()
    } else {
        registry(docs.drop_last()) + extract(docs.last())
    }
}

/// The definitions that `documents` declare, in document order.
pub fn collect_definitions(documents: &Vec<String>) -> (r: Vec<Definition>)
    ensures
        models_of(r@) == registry(strings_of(documents@)),
{
    let mut defs: Vec<Definition> = Vec::new();
    let mut k: usize = 0;
    while k < documents.len()
        invariant
            k <= documents.len(),
            models_of(defs@) == registry(strings_of(documents@).take(k as int)),
        decreases documents.len() - k,
    {
        get_definitions(&documents[k], &mut defs);
        k = k + 1;
        assert(strings_of(documents@).take(k as int).drop_last() =~= strings_of(documents@).take(k - 1 as int));
    }
    assert(strings_of(documents@).take(k as int) =~= strings_of(documents@));
    defs
}

/// Whether `outs` is what expanding each of `docs` against `defs` gives.
pub open spec fn expands_each(docs: Seq<Seq<char>>, defs: Seq<DefinitionModel>, outs: Seq<Seq<char>>) -> bool {
    outs.len() == docs.len() && forall|k: int|
        0 <= k < docs.len() ==> #[trigger] expand(docs[k], defs) == Ok::<Seq<char>, Overflow>(outs[k])
}

/// Whether document `k` is the first of `docs` whose expansion against
/// `defs` fails, and fails as `e` reports.
pub open spec fn first_failure(docs: Seq<Seq<char>>, defs: Seq<DefinitionModel>, k: int, e: ExpandError) -> bool {
    &&& 0 <= k < docs.len()
    &&& forall|j: int| 0 <= j < k ==> (#[trigger] expand(docs[j], defs)) is Ok
    &&& match expand(docs[k], defs) {
        Err(o) => reports(e, o),
        Ok(_) => false,
    }
}

/// Expands each of `documents` against the definitions of all of them, and
/// returns the results in the same order. Fails when no document is given,
/// and otherwise with the failure of the first document whose expansion
/// fails.
pub fn process_documents(documents: &Vec<String>) -> (r: Result<Vec<String>, ExpandError>)
    ensures
        ({
            let docs = strings_of(documents@);
            let defs = registry(docs);
            match r {
                Ok(outs) => docs.len() > 0 && expands_each(docs, defs, strings_of(outs@)),
                Err(ExpandError::NoInputProvided) => docs.len() == 0,
                Err(e) => exists|k: int| #[trigger] first_failure(docs, defs, k, e),
            }
        }),
{
    let ghost docs = strings_of(documents@);
    if documents.len() == 0 {
        return Err(ExpandError::NoInputProvided);
    }
    let defs = collect_definitions(documents);
    let mut outs: Vec<String> = Vec::new();
    let mut k: usize = 0;
    while k < documents.len()
        invariant
            k <= documents.len(),
            docs == strings_of(documents@),
            models_of(defs@) == registry(docs),
            expands_each(docs.take(k as int), registry(docs), strings_of(outs@)),
        decreases documents.len() - k,
    {
        match insert_definitions(&documents[k], &defs) {
            Ok(s) => {
                let ghost before = outs@;
                outs.push(s);
                proof {
                    assert(strings_of(outs@) =~= strings_of(before).push(s@));
                    assert forall|j: int| 0 <= j < k + 1 implies #[trigger] expand(docs.take(k + 1)[j], registry(docs))
                        == Ok::<Seq<char>, Overflow>(strings_of(outs@)[j]) by {
                        if j < k {
                            assert(docs.take(k as int)[j] == docs.take(k + 1)[j]);
                            assert(expand(docs.take(k as int)[j], registry(docs)) == Ok::<Seq<char>, Overflow>(strings_of(before)[j]));
                        }
                    }
                }
                k = k + 1;
            },
            Err(e) => {
                proof {
                    assert forall|j: int| 0 <= j < k implies (#[trigger] expand(docs[j], registry(docs))) is Ok by {
                        assert(docs.take(k as int)[j] == docs[j]);
                        assert(expand(docs.take(k as int)[j], registry(docs)) == Ok::<Seq<char>, Overflow>(strings_of(outs@)[j]));
                    }
                    assert(first_failure(docs, registry(docs), k as int, e));
                }
                return Err(e);
            },
        }
    }
    assert(docs.take(k as int) =~= docs);
    Ok(outs)
}

} // verus!
