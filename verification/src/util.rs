use vstd::prelude::*;

verus! {

/// A value that has a LaTeX representation; `ln` asks for the natural logarithm to be
/// written `\ln` rather than `\log`.
pub trait ToLatex {
    fn to_latex(&self, ln: bool) -> String;
}

} // verus!
