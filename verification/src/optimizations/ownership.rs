//! Helpers of the ownership inference shared with later passes.

use crate::ir::{Local, LocalDecl, MirFunction, Span, Type};
use vstd::prelude::*;

verus! {

/// The declaration `push_local` appends for a fresh owning temporary of type `ty`.
pub open spec fn owning_temp(ty: Type) -> LocalDecl {
    LocalDecl {
        ty,
        name: None,
        span: Span { file_id: 0, line: 0, col: 0, start: 0, end: 0 },
        is_mut: true,
        is_owning: true,
    }
}

/// Declares a fresh mutable, owning, unnamed local of type `ty` and returns it.
pub fn push_local(func: &mut MirFunction, ty: Type) -> (l: Local)
    requires
        old(func).locals@.len() < usize::MAX,
    ensures
        l.0 == old(func).locals@.len(),
        final(func).locals@ == old(func).locals@.push(owning_temp(ty)),
        final(func).basic_blocks@ == old(func).basic_blocks@,
        final(func).name == old(func).name,
        final(func).arg_count == old(func).arg_count,
        final(func).vararg_idx == old(func).vararg_idx,
        final(func).kwarg_idx == old(func).kwarg_idx,
        final(func).param_names@ == old(func).param_names@,
        final(func).is_async == old(func).is_async,
{
    let l = Local(func.locals.len());
    func.locals.push(
        LocalDecl { ty, name: None, span: Span::default(), is_mut: true, is_owning: true },
    );
    l
}

} // verus!
