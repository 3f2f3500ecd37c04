//! The questions asked of every document. Worded for any collection of
//! notes: nothing here names a field, a domain or a language.
use vstd::prelude::*;
use vstd::string::*;

use crate::schema::{
    options_view, schema_valid, spec_fault, NoulCriteria, QuestionSchema, QuestionSpec, SpecView, MAX_CHOICE_OPTIONS,
};

verus! {

/// The name of the question whether a document helps. What is marked and
/// reported later goes by it.
pub const RELEVANT: &'static str = "relevant";

/// The name of the question what a document contributes.
pub const ROLE: &'static str = "role";

pub const RELEVANT_ASKED: &'static str =
    "The reader's question is in `query`. Would reading the document in `document` help the reader answer that question?";

pub const RELEVANT_YES: &'static str =
    "The document addresses the question directly: it studies the same phenomenon, proposes a method the reader could apply to it, or reports evidence that bears on it.";

pub const RELEVANT_NO: &'static str =
    "The document is about a different topic, or shares vocabulary with the question without offering anything the reader could use to answer it.";

pub const ROLE_ASKED: &'static str = "What would the document in `document` mainly contribute toward answering the question in `query`?";

pub const ROLE_METHOD: &'static str = "A model, algorithm or procedure the reader could apply to the question.";

pub const ROLE_EVIDENCE: &'static str = "Empirical results or data that bear directly on the question.";

pub const ROLE_BACKGROUND: &'static str = "Context, definitions or a survey that frames the question without answering it.";

pub const ROLE_COUNTERPOINT: &'static str = "Results or arguments that cut against the premise of the question.";

pub const ROLE_UNRELATED: &'static str = "Nothing the reader could use for this question.";

/// Whether the document helps: yes or no.
pub open spec fn relevant_question() -> SpecView {
    SpecView::Noul { instructions: RELEVANT_ASKED@, criteria: Some((RELEVANT_YES@, RELEVANT_NO@)) }
}

/// What the document contributes.
pub open spec fn role_question() -> SpecView {
    SpecView::Choice {
        instructions: ROLE_ASKED@,
        criteria: seq![
            ("method"@, Some(ROLE_METHOD@)),
            ("evidence"@, Some(ROLE_EVIDENCE@)),
            ("background"@, Some(ROLE_BACKGROUND@)),
            ("counterpoint"@, Some(ROLE_COUNTERPOINT@)),
            ("unrelated"@, Some(ROLE_UNRELATED@)),
        ],
    }
}

/// The questions asked of every document.
pub open spec fn asked_of_documents(role: bool) -> Map<Seq<char>, SpecView> {
    let relevant = Map::<Seq<char>, SpecView>::empty().insert(RELEVANT@, relevant_question());
    if role {
        relevant.insert(ROLE@, role_question())
    } else {
        relevant
    }
}

/// The questions asked of every document, with or without the one about its role.
pub fn schema(role: bool) -> (r: QuestionSchema)
    ensures
        r@ == asked_of_documents(role),
{
    let relevant = QuestionSpec::Noul {
        instructions: RELEVANT_ASKED.to_owned(),
        criteria: Some(NoulCriteria { yes: RELEVANT_YES.to_owned(), no: RELEVANT_NO.to_owned() }),
    };
    let mut s = QuestionSchema::new().with(RELEVANT, relevant);
    if role {
        let mut options: Vec<(String, Option<String>)> = Vec::new();
        options.push(("method".to_owned(), Some(ROLE_METHOD.to_owned())));
        options.push(("evidence".to_owned(), Some(ROLE_EVIDENCE.to_owned())));
        options.push(("background".to_owned(), Some(ROLE_BACKGROUND.to_owned())));
        options.push(("counterpoint".to_owned(), Some(ROLE_COUNTERPOINT.to_owned())));
        options.push(("unrelated".to_owned(), Some(ROLE_UNRELATED.to_owned())));
        let spec = QuestionSpec::Choice { instructions: ROLE_ASKED.to_owned(), criteria: options };
        assert(spec@ =~= role_question());
        s.insert(ROLE, spec);
    }
    s
}

/// The questions always keep the limits of the API: there are two of them,
/// or one without the role.
pub proof fn documents_schema_is_valid(role: bool)
    ensures
        schema_valid(asked_of_documents(role)),
        asked_of_documents(role).len() == (if role {
            2nat
        } else {
            1nat
        }),
{
    reveal_strlit("relevant");
    reveal_strlit("role");
    let m = asked_of_documents(role);
    let relevant = Map::<Seq<char>, SpecView>::empty().insert(RELEVANT@, relevant_question());
    assert(RELEVANT@.len() == 8 && ROLE@.len() == 4);
    assert(relevant.dom() =~= Set::<Seq<char>>::empty().insert(RELEVANT@));
    if role {
        assert(m.dom() =~= relevant.dom().insert(ROLE@));
    }
    assert forall|k: Seq<char>| #[trigger] m.contains_key(k) implies spec_fault(k, m[k]) is None by {
        if role && k == ROLE@ {
            assert(m[k] == role_question());
        } else {
            assert(m[k] == relevant_question());
        }
    }
}

/// Whether a document helps is asked under `relevant`, a yes or no with what
/// counts as either; what it contributes under `role`, where that is asked, as
/// one of five.
pub proof fn documents_are_asked_both(role: bool)
    ensures
        ({
            let m = asked_of_documents(role);
            &&& m.contains_key("relevant"@)
            &&& m["relevant"@] == (SpecView::Noul { instructions: RELEVANT_ASKED@, criteria: Some((RELEVANT_YES@, RELEVANT_NO@)) })
            &&& m.contains_key("role"@) == role
            &&& role ==> (m["role"@] matches SpecView::Choice { instructions, criteria } && {
                &&& instructions == ROLE_ASKED@
                &&& criteria.len() == 5
                &&& criteria[0] == ("method"@, Some(ROLE_METHOD@))
                &&& criteria[1] == ("evidence"@, Some(ROLE_EVIDENCE@))
                &&& criteria[2] == ("background"@, Some(ROLE_BACKGROUND@))
                &&& criteria[3] == ("counterpoint"@, Some(ROLE_COUNTERPOINT@))
                &&& criteria[4] == ("unrelated"@, Some(ROLE_UNRELATED@))
            })
        }),
{
    reveal_strlit("relevant");
    reveal_strlit("role");
    assert("relevant"@.len() == 8 && "role"@.len() == 4);
}

} // verus!
