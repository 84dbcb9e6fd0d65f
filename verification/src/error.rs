//! Why a gradient could not be built.

use vstd::prelude::*;
use vstd::string::StringExecFns;

verus! {

#[derive(Debug, Clone, Eq, PartialEq, Ord, PartialOrd, Hash)]
pub enum GradientBuilderError {
    /// The color texts that are no colors, in the order they were given.
    InvalidHtmlColors(Vec<String>),
    /// The CSS gradient text is no stop list.
    InvalidCssGradient,
    /// The positions are neither none, nor two bounds, nor one for each
    /// color; or they decrease, or they are no numbers.
    InvalidDomain,
    /// Fewer than two stops are left once those that coincide are merged.
    InvalidStops,
}

/// The first `n` of `names`, each between apostrophes, with a comma and a
/// space between two of them.
pub open spec fn quoted_list(names: Seq<String>, n: int) -> Seq<char>
    decreases n,
{
    if n <= 0 {
        Seq::empty()
    } else if n == 1 {
        "'"@ + names[0]@ + "'"@
    } else {
        quoted_list(names, n - 1) + ", "@ + "'"@ + names[n - 1]@ + "'"@
    }
}

impl GradientBuilderError {
    /// The message of the error, as text.
    pub open spec fn message(self) -> Seq<char> {
        match self {
            GradientBuilderError::InvalidHtmlColors(names) => "invalid html colors: "@
                + quoted_list(names@, names@.len() as int),
            GradientBuilderError::InvalidCssGradient => "invalid css gradient"@,
            GradientBuilderError::InvalidDomain => "invalid domain"@,
            GradientBuilderError::InvalidStops => "invalid stops"@,
        }
    }

    pub fn to_string(&self) -> (text: String)
        ensures
            text@ == self.message(),
    {
        match self {
            GradientBuilderError::InvalidHtmlColors(names) => {
                let mut text: String = String::from_str("invalid html colors: ");
                let mut i: usize = 0;
                while i < names.len()
                    invariant
                        i <= names.len(),
                        text@ == "invalid html colors: "@ + quoted_list(names@, i as int),
                    decreases names.len() - i,
                {
                    if i > 0 {
                        text.append(", ");
                    }
                    text.append("'");
                    text.append(names[i].as_str());
                    text.append("'");
                    i = i + 1;
                    assert(text@ =~= "invalid html colors: "@ + quoted_list(names@, i as int));
                }
                text
            },
            GradientBuilderError::InvalidCssGradient => String::from_str("invalid css gradient"),
            GradientBuilderError::InvalidDomain => String::from_str("invalid domain"),
            GradientBuilderError::InvalidStops => String::from_str("invalid stops"),
        }
    }
}

} // verus!
