//! Path rules as they come out of a robots file.

use vstd::prelude::*;

verus! {

/// One line of a robots file: a path pattern and whether paths that match
/// it may be fetched.
///
/// In a pattern, `*` stands for any run of characters and a final `$` for
/// the end of the path; every other character stands for itself.
#[derive(Debug, PartialEq, Eq, PartialOrd, Ord)]
pub enum Rule<'a> {
    Allow(&'a str),
    Disallow(&'a str),
}

impl<'a> Rule<'a> {
    /// The characters of the rule's pattern.
    pub open spec fn pattern(&self) -> Seq<char> {
        match self {
            Rule::Allow(text) => text@,
            Rule::Disallow(text) => text@,
        }
    }

    /// Whether the rule allows what it matches.
    pub open spec fn permits(&self) -> bool {
        self is Allow
    }

    /// The rule's pattern.
    pub fn inner(&self) -> (text: &str)
        ensures
            text@ == self.pattern(),
    {
        match self {
            Rule::Allow(inner) => inner,
            Rule::Disallow(inner) => inner,
        }
    }

    /// Executable form of [`Rule::permits`].
    pub fn is_allow(&self) -> (allow: bool)
        ensures
            allow == self.permits(),
    {
        match self {
            Rule::Allow(_) => true,
            Rule::Disallow(_) => false,
        }
    }

    /// The rule's pattern, character by character.
    pub fn chars(&self) -> (text: Vec<char>)
        ensures
            text@ == self.pattern(),
    {
        let source = self.inner();
        let mut text: Vec<char> = Vec::new();
        for c in it: source.chars()
            invariant
                text@ == it.history(),
        {
            text.push(c);
        }
        proof {
            broadcast use vstd::string::group_string_axioms;
            assert(text@ =~= source@);
        }
        text
    }
}

} // verus!
