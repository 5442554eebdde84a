use vstd::prelude::*;

pub mod archive;
pub mod plan;
pub mod publish;

verus! {

/// Runs a start step, a unit of work and an end step, in this order, each
/// once; each step must be callable when its turn comes, and the start and
/// end steps are known to have run.
pub fn call_three_functions<F1: Fn(), F2: FnMut(), F3: Fn()>(func1: F1, mut func2: F2, func3: F3)
    requires
        func1.requires(()),
        forall|r: ()| func1.ensures((), r) ==> func2.requires(()),
        forall|r: ()| func1.ensures((), r) ==> func3.requires(()),
    ensures
        func1.ensures((), ()),
        func3.ensures((), ()),
{
    func1();
    func2();
    func3();
}

} // verus!
