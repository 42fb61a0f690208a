//! A reverse-Polish (postfix) arithmetic evaluator: a tokenizer that splits
//! text into operands and operators, and a stack machine that reduces the
//! token stream to its final stack.
use vstd::prelude::*;

pub mod parse;
pub mod solve;

verus! {

} // verus!
