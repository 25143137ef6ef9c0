//! The operation emitter: turns a winning match into the ordered sequence of
//! scope-stack operations. `spec_match_ops` is the exact model of what one
//! match emits; `emit_match_ops` is the executable emitter, proved to produce
//! exactly that sequence.

use vstd::prelude::*;
use crate::graph::{
    context_wf, ids_in_range, op_targets, pattern_wf, targets_meta_sum, Context, ContextGraph,
    ContextId, MatchOperation, MatchPattern, MAX_META,
};
use crate::scope::{Scope, ScopeStackOp};

verus! {

/// One push of every scope in `scopes`, in order, at byte offset `index`.
pub open spec fn spec_push_scopes(scopes: Seq<Scope>, index: usize) -> Seq<(usize, ScopeStackOp)> {
    scopes.map(|_i: int, s: Scope| (index, ScopeStackOp::Push(s)))
}

/// Ops announcing entry of one pushed target: its `clear_scopes` (only for a
/// plain push; a `set` clears after the token instead), then its meta scopes.
pub open spec fn spec_enter_target_ops(
    cs: Seq<Context>,
    t: ContextId,
    is_set: bool,
    index: usize,
) -> Seq<(usize, ScopeStackOp)> {
    let ctx = cs[t as int];
    (match ctx.clear_scopes {
        Option::Some(a) => if !is_set {
            seq![(index, ScopeStackOp::Clear(a))]
        } else {
            Seq::empty()
        },
        Option::None => Seq::empty(),
    }) + spec_push_scopes(ctx.meta_scope@, index)
}

pub open spec fn spec_enter_targets(
    cs: Seq<Context>,
    refs: Seq<ContextId>,
    is_set: bool,
    index: usize,
) -> Seq<(usize, ScopeStackOp)>
    decreases refs.len(),
{
    if refs.len() == 0 {
        Seq::empty()
    } else {
        spec_enter_targets(cs, refs.drop_last(), is_set, index) + spec_enter_target_ops(
            cs,
            refs.last(),
            is_set,
            index,
        )
    }
}

/// The meta ops emitted at the match start, before the token's own scopes.
pub open spec fn spec_meta_initial(
    cs: Seq<Context>,
    level: Context,
    op: MatchOperation,
    index: usize,
) -> Seq<(usize, ScopeStackOp)> {
    match op {
        MatchOperation::Pop => if level.meta_content_scope@.len() > 0 {
            seq![(index, ScopeStackOp::Pop(level.meta_content_scope@.len() as usize))]
        } else {
            Seq::empty()
        },
        MatchOperation::Push(refs) => spec_enter_targets(cs, refs@, false, index),
        MatchOperation::SetTo(refs) => spec_enter_targets(cs, refs@, true, index),
        MatchOperation::NoOp => Seq::empty(),
    }
}

/// Whether entering `ctx` forces the trailing re-push of meta scopes.
pub open spec fn target_repush(ctx: Context, is_set: bool) -> bool {
    ctx.meta_content_scope@.len() > 0 || (ctx.clear_scopes is Some && is_set)
}

/// Whether a push or set emits trailing meta ops at all.
pub open spec fn spec_repush(
    cs: Seq<Context>,
    level: Context,
    refs: Seq<ContextId>,
    is_set: bool,
) -> bool {
    (is_set && (level.meta_scope@.len() > 0 || level.meta_content_scope@.len() > 0)) || exists|
        k: int,
    |
        0 <= k < refs.len() && target_repush(cs[#[trigger] refs[k] as int], is_set)
}

/// Meta scopes of all targets, summed; what the trailing re-push pops first.
pub open spec fn targets_scope_sum(cs: Seq<Context>, refs: Seq<ContextId>) -> int
    decreases refs.len(),
{
    if refs.len() == 0 {
        0
    } else {
        targets_scope_sum(cs, refs.drop_last()) + cs[refs.last() as int].meta_scope@.len() as int
    }
}

/// Trailing re-entry ops of one target: its `clear_scopes` (for a `set`),
/// then its meta scope and its meta content scope.
pub open spec fn spec_reenter_target_ops(
    cs: Seq<Context>,
    t: ContextId,
    is_set: bool,
    index: usize,
) -> Seq<(usize, ScopeStackOp)> {
    let ctx = cs[t as int];
    (match ctx.clear_scopes {
        Option::Some(a) => if is_set {
            seq![(index, ScopeStackOp::Clear(a))]
        } else {
            Seq::empty()
        },
        Option::None => Seq::empty(),
    }) + spec_push_scopes(ctx.meta_scope@, index) + spec_push_scopes(ctx.meta_content_scope@, index)
}

pub open spec fn spec_reenter_targets(
    cs: Seq<Context>,
    refs: Seq<ContextId>,
    is_set: bool,
    index: usize,
) -> Seq<(usize, ScopeStackOp)>
    decreases refs.len(),
{
    if refs.len() == 0 {
        Seq::empty()
    } else {
        spec_reenter_targets(cs, refs.drop_last(), is_set, index) + spec_reenter_target_ops(
            cs,
            refs.last(),
            is_set,
            index,
        )
    }
}

/// Trailing ops of a push or set: one pop removing the meta scopes pushed at
/// the start (and, for a set, the replaced context's meta scopes), then the
/// re-entry ops of every target.
pub open spec fn spec_trailing_change(
    cs: Seq<Context>,
    level: Context,
    refs: Seq<ContextId>,
    is_set: bool,
    index: usize,
) -> Seq<(usize, ScopeStackOp)> {
    if spec_repush(cs, level, refs, is_set) {
        let num = targets_scope_sum(cs, refs) + if is_set {
            level.meta_content_scope@.len() as int + level.meta_scope@.len() as int
        } else {
            0
        };
        (if num > 0 {
            seq![(index, ScopeStackOp::Pop(num as usize))]
        } else {
            Seq::empty()
        }) + spec_reenter_targets(cs, refs, is_set, index)
    } else {
        Seq::empty()
    }
}

/// The meta ops emitted at the match end, after the token's own scopes.
pub open spec fn spec_meta_trailing(
    cs: Seq<Context>,
    level: Context,
    op: MatchOperation,
    index: usize,
) -> Seq<(usize, ScopeStackOp)> {
    match op {
        MatchOperation::Pop => (if level.meta_scope@.len() > 0 {
            seq![(index, ScopeStackOp::Pop(level.meta_scope@.len() as usize))]
        } else {
            Seq::empty()
        }) + (if level.clear_scopes is Some {
            seq![(index, ScopeStackOp::Restore)]
        } else {
            Seq::empty()
        }),
        MatchOperation::Push(refs) => spec_trailing_change(cs, level, refs@, false, index),
        MatchOperation::SetTo(refs) => spec_trailing_change(cs, level, refs@, true, index),
        MatchOperation::NoOp => Seq::empty(),
    }
}

/// One pending capture op: where it applies, how long the capture is, and
/// whether it is the closing pop. Sorting is by position; at one position
/// pops come first, then longer captures before shorter ones; remaining ties
/// keep their declaration order.
#[derive(Clone, Copy, PartialEq, Eq, Structural, Debug)]
pub struct CapRec {
    pub pos: usize,
    pub len: usize,
    pub is_pop: bool,
    pub op: ScopeStackOp,
}

pub open spec fn cap_lt(a: CapRec, b: CapRec) -> bool {
    ||| a.pos < b.pos
    ||| (a.pos == b.pos && a.is_pop && !b.is_pop)
    ||| (a.pos == b.pos && !a.is_pop && !b.is_pop && a.len > b.len)
}

/// The records one capture-map entry contributes: nothing for a group that
/// did not match or matched emptily; otherwise one push per scope over the
/// group's range and one pop of them all at the group's end.
/// The push records of one capture group: one per scope, keyed by the
/// group's start and length.
pub open spec fn spec_cap_push_recs(scopes: Seq<Scope>, p: (usize, usize)) -> Seq<CapRec>
    decreases scopes.len(),
{
    if scopes.len() == 0 {
        Seq::empty()
    } else {
        spec_cap_push_recs(scopes.drop_last(), p).push(
            CapRec {
                pos: p.0,
                len: (p.1 - p.0) as usize,
                is_pop: false,
                op: ScopeStackOp::Push(scopes.last()),
            },
        )
    }
}

pub open spec fn spec_cap_entry_recs(
    ci: usize,
    scopes: Seq<Scope>,
    regions: Seq<Option<(usize, usize)>>,
) -> Seq<CapRec> {
    if (ci as int) < regions.len() && (regions[ci as int] matches Some(p) && p.0 != p.1) {
        let p = regions[ci as int]->Some_0;
        spec_cap_push_recs(scopes, p).push(
            CapRec { pos: p.1, len: 0, is_pop: true, op: ScopeStackOp::Pop(scopes.len() as usize) },
        )
    } else {
        Seq::empty()
    }
}

pub open spec fn spec_capture_recs(
    capmap: Seq<(usize, Vec<Scope>)>,
    regions: Seq<Option<(usize, usize)>>,
) -> Seq<CapRec>
    decreases capmap.len(),
{
    if capmap.len() == 0 {
        Seq::empty()
    } else {
        spec_capture_recs(capmap.drop_last(), regions) + spec_cap_entry_recs(
            capmap.last().0,
            capmap.last().1@,
            regions,
        )
    }
}

/// Stable insertion: `x` moves left past exactly the records it sorts
/// strictly before.
pub open spec fn spec_insert_rec(s: Seq<CapRec>, x: CapRec) -> Seq<CapRec>
    decreases s.len(),
{
    if s.len() == 0 {
        seq![x]
    } else if cap_lt(x, s.last()) {
        spec_insert_rec(s.drop_last(), x).push(s.last())
    } else {
        s.push(x)
    }
}

/// The stable sort of the capture records.
pub open spec fn spec_sort_recs(s: Seq<CapRec>) -> Seq<CapRec>
    decreases s.len(),
{
    if s.len() == 0 {
        Seq::empty()
    } else {
        spec_insert_rec(spec_sort_recs(s.drop_last()), s.last())
    }
}

/// All capture ops of a match, sorted.
/// Strips the sort keys, leaving the ops.
pub open spec fn spec_recs_to_ops(s: Seq<CapRec>) -> Seq<(usize, ScopeStackOp)> {
    s.map(|_i: int, r: CapRec| (r.pos, r.op))
}

pub open spec fn spec_capture_ops(
    pat: MatchPattern,
    regions: Seq<Option<(usize, usize)>>,
) -> Seq<(usize, ScopeStackOp)> {
    match pat.captures {
        Option::Some(m) => spec_recs_to_ops(spec_sort_recs(spec_capture_recs(m@, regions))),
        Option::None => Seq::empty(),
    }
}

/// Everything one winning match emits, in order: opening meta ops, the
/// token's scope pushes, the sorted capture ops, the token's scope pop, and
/// the closing meta ops.
pub open spec fn spec_match_ops(
    cs: Seq<Context>,
    level: Context,
    pat: MatchPattern,
    regions: Seq<Option<(usize, usize)>>,
    match_start: usize,
    match_end: usize,
) -> Seq<(usize, ScopeStackOp)> {
    spec_meta_initial(cs, level, pat.operation, match_start) + spec_push_scopes(
        pat.scope@,
        match_start,
    ) + spec_capture_ops(pat, regions) + (if pat.scope@.len() > 0 {
        seq![(match_end, ScopeStackOp::Pop(pat.scope@.len() as usize))]
    } else {
        Seq::empty()
    }) + spec_meta_trailing(cs, level, pat.operation, match_end)
}

fn cap_lt_exec(a: &CapRec, b: &CapRec) -> (r: bool)
    ensures
        r == cap_lt(*a, *b),
{
    a.pos < b.pos || (a.pos == b.pos && a.is_pop && !b.is_pop) || (a.pos == b.pos && !a.is_pop
        && !b.is_pop && a.len > b.len)
}

/// Inserting into a sorted prefix splices `x` at the first position from the
/// right whose left neighbour does not sort strictly after `x`.
proof fn lemma_insert_rec_splice(s: Seq<CapRec>, x: CapRec, j: int)
    requires
        0 <= j <= s.len(),
        forall|m: int| j <= m < s.len() ==> cap_lt(x, #[trigger] s[m]),
        j > 0 ==> !cap_lt(x, s[j - 1]),
    ensures
        spec_insert_rec(s, x) =~= s.subrange(0, j) + seq![x] + s.subrange(j, s.len() as int),
    decreases s.len(),
{
    if s.len() == 0 {
    } else if j == s.len() {
        assert(!cap_lt(x, s.last()));
        assert(s.subrange(0, j) =~= s);
    } else {
        assert(cap_lt(x, s[s.len() - 1]));
        lemma_insert_rec_splice(s.drop_last(), x, j);
        assert(s.drop_last().subrange(0, j) =~= s.subrange(0, j));
        assert(s.drop_last().subrange(j, s.len() - 1) =~= s.subrange(j, s.len() - 1));
    }
}

fn insert_sorted(out: &mut Vec<CapRec>, x: CapRec)
    ensures
        final(out)@ == spec_insert_rec(old(out)@, x),
{
    let mut j: usize = out.len();
    while j > 0 && cap_lt_exec(&x, &out[j - 1])
        invariant
            j <= out@.len(),
            out@ == old(out)@,
            forall|m: int| j <= m < out@.len() ==> cap_lt(x, #[trigger] out@[m]),
        decreases j,
    {
        j = j - 1;
    }
    proof {
        lemma_insert_rec_splice(out@, x, j as int);
    }
    out.insert(j, x);
    proof {
        assert(out@ =~= old(out)@.subrange(0, j as int) + seq![x] + old(out)@.subrange(
            j as int,
            old(out)@.len() as int,
        ));
    }
}

fn sort_recs(recs: &Vec<CapRec>) -> (r: Vec<CapRec>)
    ensures
        r@ == spec_sort_recs(recs@),
{
    let mut out: Vec<CapRec> = Vec::new();
    let mut i: usize = 0;
    while i < recs.len()
        invariant
            i <= recs@.len(),
            out@ == spec_sort_recs(recs@.subrange(0, i as int)),
        decreases recs@.len() - i,
    {
        insert_sorted(&mut out, recs[i]);
        proof {
            assert(recs@.subrange(0, i + 1).drop_last() =~= recs@.subrange(0, i as int));
            assert(recs@.subrange(0, i + 1).last() == recs@[i as int]);
        }
        i = i + 1;
    }
    proof {
        assert(recs@.subrange(0, recs@.len() as int) =~= recs@);
    }
    out
}

fn push_scope_ops(ops: &mut Vec<(usize, ScopeStackOp)>, scopes: &Vec<Scope>, index: usize)
    ensures
        final(ops)@ == old(ops)@ + spec_push_scopes(scopes@, index),
{
    let mut j: usize = 0;
    while j < scopes.len()
        invariant
            j <= scopes@.len(),
            ops@ == old(ops)@ + spec_push_scopes(scopes@.subrange(0, j as int), index),
        decreases scopes@.len() - j,
    {
        ops.push((index, ScopeStackOp::Push(scopes[j])));
        proof {
            assert(spec_push_scopes(scopes@.subrange(0, j + 1), index) =~= spec_push_scopes(
                scopes@.subrange(0, j as int),
                index,
            ).push((index, ScopeStackOp::Push(scopes@[j as int]))));
        }
        j = j + 1;
    }
    proof {
        assert(scopes@.subrange(0, scopes@.len() as int) =~= scopes@);
    }
}

proof fn lemma_scope_sum_le_meta(cs: Seq<Context>, refs: Seq<ContextId>)
    ensures
        targets_scope_sum(cs, refs) <= targets_meta_sum(cs, refs),
    decreases refs.len(),
{
    if refs.len() > 0 {
        lemma_scope_sum_le_meta(cs, refs.drop_last());
    }
}

proof fn lemma_scope_sum_prefix(cs: Seq<Context>, refs: Seq<ContextId>, k: int)
    requires
        0 <= k <= refs.len(),
    ensures
        targets_scope_sum(cs, refs.subrange(0, k)) <= targets_scope_sum(cs, refs),
        targets_scope_sum(cs, refs.subrange(0, k)) >= 0,
    decreases refs.len(),
{
    if k == refs.len() {
        assert(refs.subrange(0, k) =~= refs);
        if refs.len() > 0 {
            lemma_scope_sum_prefix(cs, refs.drop_last(), refs.len() - 1);
            assert(refs.drop_last().subrange(0, refs.len() - 1) =~= refs.drop_last());
        }
    } else {
        assert(refs.drop_last().subrange(0, k) =~= refs.subrange(0, k));
        lemma_scope_sum_prefix(cs, refs.drop_last(), k);
    }
}

/// Emits the per-target meta ops of a push or set; `initial` picks the
/// opening form, otherwise the trailing re-push form.
fn meta_change_ops(
    g: &ContextGraph,
    initial: bool,
    index: usize,
    level: &Context,
    refs: &Vec<ContextId>,
    is_set: bool,
    ops: &mut Vec<(usize, ScopeStackOp)>,
)
    requires
        g.wf(),
        level.meta_scope@.len() + level.meta_content_scope@.len() <= MAX_META as int,
        ids_in_range(refs@, g.cs().len() as int),
        targets_meta_sum(g.cs(), refs@) <= MAX_META as int,
    ensures
        initial ==> final(ops)@ == old(ops)@ + spec_enter_targets(g.cs(), refs@, is_set, index),
        !initial ==> final(ops)@ == old(ops)@ + spec_trailing_change(
            g.cs(),
            *level,
            refs@,
            is_set,
            index,
        ),
{
    let n_refs = refs.len();
    if initial {
        let mut k: usize = 0;
        while k < n_refs
            invariant
                k <= refs@.len(),
                n_refs == refs@.len(),
                g.wf(),
                ids_in_range(refs@, g.cs().len() as int),
                ops@ == old(ops)@ + spec_enter_targets(
                    g.cs(),
                    refs@.subrange(0, k as int),
                    is_set,
                    index,
                ),
            decreases refs@.len() - k,
        {
            let t = refs[k];
            assert(t < g.cs().len());
            let ctx = &g.contexts[t];
            if !is_set {
                match ctx.clear_scopes {
                    Some(a) => ops.push((index, ScopeStackOp::Clear(a))),
                    None => {},
                }
            }
            push_scope_ops(ops, &ctx.meta_scope, index);
            proof {
                assert(refs@.subrange(0, k + 1).drop_last() =~= refs@.subrange(0, k as int));
                assert(refs@.subrange(0, k + 1).last() == refs@[k as int]);
                assert(ops@ =~= old(ops)@ + spec_enter_targets(
                    g.cs(),
                    refs@.subrange(0, k + 1),
                    is_set,
                    index,
                ));
            }
            k = k + 1;
        }
        proof {
            assert(refs@.subrange(0, refs@.len() as int) =~= refs@);
        }
    } else {
        let mut repush = is_set && (level.meta_scope.len() > 0 || level.meta_content_scope.len()
            > 0);
        if !repush {
            let mut found = false;
            let mut k: usize = 0;
            while k < n_refs
                invariant
                    k <= refs@.len(),
                    n_refs == refs@.len(),
                    g.wf(),
                    ids_in_range(refs@, g.cs().len() as int),
                    found == exists|m: int|
                        0 <= m < k && target_repush(g.cs()[#[trigger] refs@[m] as int], is_set),
                decreases refs@.len() - k,
            {
                let t = refs[k];
                assert(t < g.cs().len());
                let ctx = &g.contexts[t];
                if ctx.meta_content_scope.len() > 0 || (ctx.clear_scopes.is_some() && is_set) {
                    found = true;
                }
                k = k + 1;
            }
            repush = found;
        }
        proof {
            assert(repush == spec_repush(g.cs(), *level, refs@, is_set));
        }
        if repush {
            let mut num: usize = 0;
            let mut k: usize = 0;
            while k < n_refs
                invariant
                    k <= refs@.len(),
                    n_refs == refs@.len(),
                    g.wf(),
                    ids_in_range(refs@, g.cs().len() as int),
                    targets_meta_sum(g.cs(), refs@) <= MAX_META as int,
                    num == targets_scope_sum(g.cs(), refs@.subrange(0, k as int)),
                    num <= MAX_META,
                decreases refs@.len() - k,
            {
                let t = refs[k];
                assert(t < g.cs().len());
                proof {
                    assert(refs@.subrange(0, k + 1).drop_last() =~= refs@.subrange(0, k as int));
                    assert(refs@.subrange(0, k + 1).last() == refs@[k as int]);
                    lemma_scope_sum_prefix(g.cs(), refs@, k + 1);
                    lemma_scope_sum_le_meta(g.cs(), refs@);
                }
                num = num + g.contexts[t].meta_scope.len();
                k = k + 1;
            }
            proof {
                assert(refs@.subrange(0, refs@.len() as int) =~= refs@);
            }
            if is_set {
                num = num + level.meta_content_scope.len() + level.meta_scope.len();
            }
            let ghost num_spec = targets_scope_sum(g.cs(), refs@) + if is_set {
                level.meta_content_scope@.len() as int + level.meta_scope@.len() as int
            } else {
                0int
            };
            assert(num == num_spec);
            if num > 0 {
                ops.push((index, ScopeStackOp::Pop(num)));
            }
            let ghost head = old(ops)@ + (if num_spec > 0 {
                seq![(index, ScopeStackOp::Pop(num_spec as usize))]
            } else {
                Seq::empty()
            });
            assert(ops@ =~= head);
            let mut k: usize = 0;
            while k < n_refs
                invariant
                    k <= refs@.len(),
                    n_refs == refs@.len(),
                    g.wf(),
                    ids_in_range(refs@, g.cs().len() as int),
                    ops@ == head + spec_reenter_targets(
                        g.cs(),
                        refs@.subrange(0, k as int),
                        is_set,
                        index,
                    ),
                decreases refs@.len() - k,
            {
                let t = refs[k];
                assert(t < g.cs().len());
                let ctx = &g.contexts[t];
                if is_set {
                    match ctx.clear_scopes {
                        Some(a) => ops.push((index, ScopeStackOp::Clear(a))),
                        None => {},
                    }
                }
                push_scope_ops(ops, &ctx.meta_scope, index);
                push_scope_ops(ops, &ctx.meta_content_scope, index);
                proof {
                    assert(refs@.subrange(0, k + 1).drop_last() =~= refs@.subrange(0, k as int));
                    assert(refs@.subrange(0, k + 1).last() == refs@[k as int]);
                    assert(ops@ =~= head + spec_reenter_targets(
                        g.cs(),
                        refs@.subrange(0, k + 1),
                        is_set,
                        index,
                    ));
                }
                k = k + 1;
            }
            proof {
                assert(refs@.subrange(0, refs@.len() as int) =~= refs@);
                assert(ops@ =~= old(ops)@ + spec_trailing_change(
                    g.cs(),
                    *level,
                    refs@,
                    is_set,
                    index,
                ));
            }
        } else {
            proof {
                assert(ops@ =~= old(ops)@ + spec_trailing_change(
                    g.cs(),
                    *level,
                    refs@,
                    is_set,
                    index,
                ));
            }
        }
    }
}

/// Emits the meta ops of one match: the opening ones at the match start when
/// `initial`, else the closing ones at the match end.
pub(crate) fn push_meta_ops(
    g: &ContextGraph,
    initial: bool,
    index: usize,
    level: &Context,
    match_op: &MatchOperation,
    ops: &mut Vec<(usize, ScopeStackOp)>,
)
    requires
        g.wf(),
        level.meta_scope@.len() + level.meta_content_scope@.len() <= MAX_META as int,
        ids_in_range(op_targets(*match_op), g.cs().len() as int),
        targets_meta_sum(g.cs(), op_targets(*match_op)) <= MAX_META as int,
    ensures
        initial ==> final(ops)@ == old(ops)@ + spec_meta_initial(g.cs(), *level, *match_op, index),
        !initial ==> final(ops)@ == old(ops)@ + spec_meta_trailing(
            g.cs(),
            *level,
            *match_op,
            index,
        ),
{
    match match_op {
        MatchOperation::Pop => {
            if initial {
                if level.meta_content_scope.len() > 0 {
                    ops.push((index, ScopeStackOp::Pop(level.meta_content_scope.len())));
                }
                proof {
                    assert(ops@ =~= old(ops)@ + spec_meta_initial(
                        g.cs(),
                        *level,
                        *match_op,
                        index,
                    ));
                }
            } else {
                if level.meta_scope.len() > 0 {
                    ops.push((index, ScopeStackOp::Pop(level.meta_scope.len())));
                }
                if level.clear_scopes.is_some() {
                    ops.push((index, ScopeStackOp::Restore));
                }
                proof {
                    assert(ops@ =~= old(ops)@ + spec_meta_trailing(
                        g.cs(),
                        *level,
                        *match_op,
                        index,
                    ));
                }
            }
        },
        MatchOperation::Push(refs) => {
            meta_change_ops(g, initial, index, level, refs, false, ops);
        },
        MatchOperation::SetTo(refs) => {
            meta_change_ops(g, initial, index, level, refs, true, ops);
        },
        MatchOperation::NoOp => {
            proof {
                assert(ops@ =~= old(ops)@);
            }
        },
    }
}

fn capture_recs(
    capmap: &Vec<(usize, Vec<Scope>)>,
    regions: &Vec<Option<(usize, usize)>>,
) -> (r: Vec<CapRec>)
    requires
        forall|i: int|
            0 <= i < regions@.len() ==> (#[trigger] regions@[i] matches Some(q) ==> q.0 <= q.1),
    ensures
        r@ == spec_capture_recs(capmap@, regions@),
{
    let mut recs: Vec<CapRec> = Vec::new();
    let mut k: usize = 0;
    while k < capmap.len()
        invariant
            k <= capmap@.len(),
            forall|i: int|
                0 <= i < regions@.len() ==> (#[trigger] regions@[i] matches Some(q) ==> q.0
                    <= q.1),
            recs@ == spec_capture_recs(capmap@.subrange(0, k as int), regions@),
        decreases capmap@.len() - k,
    {
        let ci = capmap[k].0;
        let scopes = &capmap[k].1;
        let ghost pre = recs@;
        if ci < regions.len() {
            match regions[ci] {
                Some(p) => {
                    if p.0 != p.1 {
                        assert(p.0 <= p.1);
                        let l = p.1 - p.0;
                        let mut j: usize = 0;
                        while j < scopes.len()
                            invariant
                                j <= scopes@.len(),
                                ci < regions@.len(),
                                regions@[ci as int] == Some(p),
                                p.0 <= p.1,
                                l == (p.1 - p.0) as usize,
                                recs@ == pre + spec_cap_push_recs(
                                    scopes@.subrange(0, j as int),
                                    p,
                                ),
                            decreases scopes@.len() - j,
                        {
                            recs.push(
                                CapRec {
                                    pos: p.0,
                                    len: l,
                                    is_pop: false,
                                    op: ScopeStackOp::Push(scopes[j]),
                                },
                            );
                            proof {
                                assert(scopes@.subrange(0, j + 1).drop_last()
                                    =~= scopes@.subrange(0, j as int));
                                assert(scopes@.subrange(0, j + 1).last() == scopes@[j as int]);
                                assert(recs@ =~= pre + spec_cap_push_recs(
                                    scopes@.subrange(0, j + 1),
                                    p,
                                ));
                            }
                            j = j + 1;
                        }
                        recs.push(
                            CapRec {
                                pos: p.1,
                                len: 0,
                                is_pop: true,
                                op: ScopeStackOp::Pop(scopes.len()),
                            },
                        );
                        proof {
                            assert(scopes@.subrange(0, scopes@.len() as int) =~= scopes@);
                            assert(recs@ =~= pre + spec_cap_entry_recs(ci, scopes@, regions@));
                        }
                    }
                },
                None => {},
            }
        }
        proof {
            assert(capmap@.subrange(0, k + 1).drop_last() =~= capmap@.subrange(0, k as int));
            assert(capmap@.subrange(0, k + 1).last() == capmap@[k as int]);
            assert(recs@ =~= spec_capture_recs(capmap@.subrange(0, k + 1), regions@));
        }
        k = k + 1;
    }
    proof {
        assert(capmap@.subrange(0, capmap@.len() as int) =~= capmap@);
    }
    recs
}

/// The executable emitter: appends to `ops` exactly `spec_match_ops` of the
/// winning pattern, the level context, and the match's capture regions.
pub(crate) fn emit_match_ops(
    g: &ContextGraph,
    level_id: ContextId,
    pat: &MatchPattern,
    regions: &Vec<Option<(usize, usize)>>,
    match_start: usize,
    match_end: usize,
    ops: &mut Vec<(usize, ScopeStackOp)>,
)
    requires
        g.wf(),
        level_id < g.cs().len(),
        pattern_wf(*pat, g.cs()),
        forall|i: int|
            0 <= i < regions@.len() ==> (#[trigger] regions@[i] matches Some(q) ==> q.0 <= q.1),
    ensures
        final(ops)@ == old(ops)@ + spec_match_ops(
            g.cs(),
            g.cs()[level_id as int],
            *pat,
            regions@,
            match_start,
            match_end,
        ),
{
    let level = &g.contexts[level_id];
    proof {
        assert(context_wf(g.cs()[level_id as int], g.cs()));
    }
    push_meta_ops(g, true, match_start, level, &pat.operation, ops);
    push_scope_ops(ops, &pat.scope, match_start);
    let ghost mid = old(ops)@ + spec_meta_initial(g.cs(), *level, pat.operation, match_start)
        + spec_push_scopes(pat.scope@, match_start);
    assert(ops@ == mid);
    match &pat.captures {
        Some(capmap) => {
            let recs = capture_recs(capmap, regions);
            let sorted = sort_recs(&recs);
            let mut j: usize = 0;
            while j < sorted.len()
                invariant
                    j <= sorted@.len(),
                    ops@ == mid + spec_recs_to_ops(sorted@.subrange(0, j as int)),
                decreases sorted@.len() - j,
            {
                let rec = sorted[j];
                ops.push((rec.pos, rec.op));
                proof {
                    assert(ops@ =~= mid + spec_recs_to_ops(sorted@.subrange(0, j + 1)));
                }
                j = j + 1;
            }
            proof {
                assert(sorted@.subrange(0, sorted@.len() as int) =~= sorted@);
                assert(ops@ =~= mid + spec_capture_ops(*pat, regions@));
            }
        },
        None => {
            proof {
                assert(ops@ =~= mid + spec_capture_ops(*pat, regions@));
            }
        },
    }
    if pat.scope.len() > 0 {
        ops.push((match_end, ScopeStackOp::Pop(pat.scope.len())));
    }
    push_meta_ops(g, false, match_end, level, &pat.operation, ops);
    proof {
        assert(ops@ =~= old(ops)@ + spec_match_ops(
            g.cs(),
            g.cs()[level_id as int],
            *pat,
            regions@,
            match_start,
            match_end,
        ));
    }
}

} // verus!
