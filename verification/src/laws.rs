//! Stack-wide laws: the LIFO order of a run of pushes, and conservation
//! of values between pushes, pops and the reachable chain.

use vstd::prelude::*;

verus! {

/// The stack contents after pushing every value of `vs`, in order, onto a
/// stack whose contents were `s`: exactly what a run of `push` calls
/// leaves behind, top first.
pub open spec fn push_all<T>(s: Seq<T>, vs: Seq<T>) -> Seq<T>
    decreases vs.len(),
{
    if vs.len() == 0 {
        s
    } else {
        push_all(seq![vs.first()] + s, vs.drop_first())
    }
}

/// Strict LIFO order: after pushing the values of `vs` in order, the
/// stack holds them in exact reverse push order above what was there
/// before. Since `pop` returns the first element of the contents and
/// drops it, the next `vs.len()` pops return `vs` reversed, and a stack
/// that started empty is empty again afterwards.
pub proof fn lemma_push_all_reverse<T>(s: Seq<T>, vs: Seq<T>)
    ensures
        push_all(s, vs) == vs.reverse() + s,
    decreases vs.len(),
{
    if vs.len() == 0 {
        assert(push_all(s, vs) =~= vs.reverse() + s);
    } else {
        lemma_push_all_reverse(seq![vs.first()] + s, vs.drop_first());
        assert(vs.drop_first().reverse() + (seq![vs.first()] + s) =~= vs.reverse() + s);
    }
}

/// Conservation: in any well-formed stack, the completed pushes equal the
/// completed pops plus the values still reachable from the head.
pub proof fn lemma_conservation<T>(s: crate::stack::Stack<T>)
    requires
        s.wf(),
    ensures
        s.pushes@ == s.pops@ + s.contents().len(),
{
}

} // verus!
