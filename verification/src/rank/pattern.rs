//! Patterns whose matches are deleted from a document.
use vstd::prelude::*;
use vstd::string::*;

verus! {

/// What is wrong with a regular expression: the text of the error that
/// `regex::Regex::new` returns, nothing where it compiles.
pub uninterp spec fn regex_error(pattern: Seq<char>) -> Option<Seq<char>>;

/// A text without the matches of a regular expression: what
/// `regex::Regex::replace_all` returns for an empty replacement.
pub uninterp spec fn erased(pattern: Seq<char>, text: Seq<char>) -> Seq<char>;

/// `regex::Regex::new` compiles a pattern, or says why it cannot.
#[verifier::external_body]
fn fault_of(pattern: &str) -> (r: Option<String>)
    ensures
        match r {
            Some(e) => regex_error(pattern@) == Some(e@),
            None => regex_error(pattern@) is None,
        },
{
    regex::Regex::new(pattern).err().map(|e| e.to_string())
}

/// `regex::Regex::replace_all`, with an empty replacement, deletes every match
/// of a pattern that compiles.
#[verifier::external_body]
fn erase(pattern: &str, text: &str) -> (r: String)
    requires
        regex_error(pattern@) is None,
    ensures
        r@ == erased(pattern@, text@),
{
    regex::Regex::new(pattern).expect("the pattern compiles").replace_all(text, "").into_owned()
}

/// A regular expression that compiles.
#[derive(Debug)]
pub struct Pattern {
    source: String,
}

impl View for Pattern {
    type V = Seq<char>;

    closed spec fn view(&self) -> Seq<char> {
        self.source@
    }
}

impl Pattern {
    #[verifier::type_invariant]
    pub closed spec fn wf(&self) -> bool {
        regex_error(self.source@) is None
    }

    /// The pattern written as `source`, or what is wrong with it.
    pub fn new(source: &str) -> (r: Result<Pattern, String>)
        ensures
            match r {
                Ok(p) => regex_error(source@) is None && p@ == source@,
                Err(e) => regex_error(source@) == Some(e@),
            },
    {
        match fault_of(source) {
            Some(e) => Err(e),
            None => Ok(Pattern { source: source.to_owned() }),
        }
    }

    /// The text without the matches of this pattern.
    pub fn delete_from(&self, text: &str) -> (r: String)
        ensures
            r@ == erased(self@, text@),
    {
        proof {
            use_type_invariant(self);
        }
        erase(self.source.as_str(), text)
    }
}

} // verus!
