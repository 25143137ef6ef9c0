//! Laws of the operation emitter, stated over its exact model in `ops` and
//! proved once and for all: ordering of emitted offsets, where `Clear`
//! operations may appear for pushes versus sets, the ordering of capture
//! operations, and the push/pop balance of matches without a stack action.

use vstd::prelude::*;
use crate::graph::{Context, ContextId, MatchOperation, MatchPattern};
use crate::ops::{
    cap_lt, spec_cap_entry_recs, spec_cap_push_recs, spec_capture_ops, spec_capture_recs,
    spec_enter_targets, spec_insert_rec, spec_match_ops, spec_meta_initial, spec_meta_trailing,
    spec_push_scopes, spec_recs_to_ops, spec_reenter_targets, spec_sort_recs,
    spec_trailing_change, CapRec,
};
use crate::scope::ScopeStackOp;

verus! {

/// Offsets appear in non-decreasing order.
pub open spec fn offsets_nondecreasing(s: Seq<(usize, ScopeStackOp)>) -> bool {
    forall|i: int, j: int| 0 <= i <= j < s.len() ==> (#[trigger] s[i]).0 <= (#[trigger] s[j]).0
}

/// Every offset lies in `[lo, hi]`.
pub open spec fn offsets_within(s: Seq<(usize, ScopeStackOp)>, lo: int, hi: int) -> bool {
    forall|i: int| 0 <= i < s.len() ==> lo <= (#[trigger] s[i]).0 <= hi
}

/// No operation of the sequence is a `Clear`.
pub open spec fn no_clear(s: Seq<(usize, ScopeStackOp)>) -> bool {
    forall|i: int| 0 <= i < s.len() ==> !((#[trigger] s[i]).1 is Clear)
}

proof fn lemma_push_scopes_at(scopes: Seq<crate::scope::Scope>, index: usize)
    ensures
        offsets_within(spec_push_scopes(scopes, index), index as int, index as int),
{
    assert forall|i: int| 0 <= i < spec_push_scopes(scopes, index).len() implies (#[trigger]
    spec_push_scopes(scopes, index)[i]).0 == index by {}
}

proof fn lemma_enter_targets_at(cs: Seq<Context>, refs: Seq<ContextId>, is_set: bool, index: usize)
    ensures
        offsets_within(spec_enter_targets(cs, refs, is_set, index), index as int, index as int),
    decreases refs.len(),
{
    if refs.len() > 0 {
        lemma_enter_targets_at(cs, refs.drop_last(), is_set, index);
        lemma_push_scopes_at(cs[refs.last() as int].meta_scope@, index);
    }
}

proof fn lemma_reenter_targets_at(
    cs: Seq<Context>,
    refs: Seq<ContextId>,
    is_set: bool,
    index: usize,
)
    ensures
        offsets_within(spec_reenter_targets(cs, refs, is_set, index), index as int, index as int),
    decreases refs.len(),
{
    if refs.len() > 0 {
        lemma_reenter_targets_at(cs, refs.drop_last(), is_set, index);
        lemma_push_scopes_at(cs[refs.last() as int].meta_scope@, index);
        lemma_push_scopes_at(cs[refs.last() as int].meta_content_scope@, index);
    }
}

proof fn lemma_meta_initial_at(cs: Seq<Context>, level: Context, op: MatchOperation, index: usize)
    ensures
        offsets_within(spec_meta_initial(cs, level, op, index), index as int, index as int),
{
    match op {
        MatchOperation::Push(refs) => lemma_enter_targets_at(cs, refs@, false, index),
        MatchOperation::SetTo(refs) => lemma_enter_targets_at(cs, refs@, true, index),
        _ => {},
    }
}

proof fn lemma_meta_trailing_at(cs: Seq<Context>, level: Context, op: MatchOperation, index: usize)
    ensures
        offsets_within(spec_meta_trailing(cs, level, op, index), index as int, index as int),
{
    match op {
        MatchOperation::Push(refs) => lemma_reenter_targets_at(cs, refs@, false, index),
        MatchOperation::SetTo(refs) => lemma_reenter_targets_at(cs, refs@, true, index),
        _ => {},
    }
}

/// All records of one capture entry lie within `[lo, hi]` when every
/// reported group does.
proof fn lemma_cap_push_recs_in(scopes: Seq<crate::scope::Scope>, p: (usize, usize), lo: int, hi: int)
    requires
        lo <= p.0,
        p.1 <= hi,
        p.0 <= p.1,
    ensures
        forall|k: int|
            0 <= k < spec_cap_push_recs(scopes, p).len() ==> lo <= (#[trigger] spec_cap_push_recs(
                scopes,
                p,
            )[k]).pos <= hi,
    decreases scopes.len(),
{
    if scopes.len() > 0 {
        lemma_cap_push_recs_in(scopes.drop_last(), p, lo, hi);
    }
}

proof fn lemma_capture_recs_in(
    capmap: Seq<(usize, Vec<crate::scope::Scope>)>,
    regions: Seq<Option<(usize, usize)>>,
    lo: int,
    hi: int,
)
    requires
        forall|i: int|
            0 <= i < regions.len() ==> (#[trigger] regions[i] matches Some(q) ==> lo <= q.0
                && q.0 <= q.1 && q.1 <= hi),
    ensures
        forall|k: int|
            0 <= k < spec_capture_recs(capmap, regions).len() ==> lo <= (
            #[trigger] spec_capture_recs(capmap, regions)[k]).pos <= hi,
    decreases capmap.len(),
{
    if capmap.len() > 0 {
        lemma_capture_recs_in(capmap.drop_last(), regions, lo, hi);
        let ci = capmap.last().0;
        let scopes = capmap.last().1@;
        if (ci as int) < regions.len() && (regions[ci as int] matches Some(p) && p.0 != p.1) {
            let p = regions[ci as int]->Some_0;
            lemma_cap_push_recs_in(scopes, p, lo, hi);
        }
    }
}

/// Every record of a stable insertion is the inserted record or one of the
/// sequence's records, so any per-record property survives the insertion.
proof fn lemma_insert_rec_all(s: Seq<CapRec>, x: CapRec, p: spec_fn(CapRec) -> bool)
    requires
        forall|k: int| 0 <= k < s.len() ==> p(#[trigger] s[k]),
        p(x),
    ensures
        forall|k: int|
            0 <= k < spec_insert_rec(s, x).len() ==> p(#[trigger] spec_insert_rec(s, x)[k]),
    decreases s.len(),
{
    if s.len() == 0 {
        assert(spec_insert_rec(s, x) =~= seq![x]);
    } else if cap_lt(x, s.last()) {
        lemma_insert_rec_all(s.drop_last(), x, p);
        let r = spec_insert_rec(s.drop_last(), x).push(s.last());
        assert(spec_insert_rec(s, x) == r);
        assert forall|k: int| 0 <= k < r.len() implies p(#[trigger] r[k]) by {
            if k < r.len() - 1 {
                assert(r[k] == spec_insert_rec(s.drop_last(), x)[k]);
            } else {
                assert(p(s[s.len() - 1]));
                assert(r[k] == s.last());
            }
        }
    } else {
        let r = s.push(x);
        assert(spec_insert_rec(s, x) == r);
        assert forall|k: int| 0 <= k < r.len() implies p(#[trigger] r[k]) by {
            if k < s.len() {
                assert(p(s[k]));
                assert(r[k] == s[k]);
            } else {
                assert(r[k] == x);
            }
        }
    }
}

proof fn lemma_sort_recs_all(s: Seq<CapRec>, p: spec_fn(CapRec) -> bool)
    requires
        forall|k: int| 0 <= k < s.len() ==> p(#[trigger] s[k]),
    ensures
        forall|k: int|
            0 <= k < spec_sort_recs(s).len() ==> p(#[trigger] spec_sort_recs(s)[k]),
    decreases s.len(),
{
    if s.len() > 0 {
        lemma_sort_recs_all(s.drop_last(), p);
        lemma_insert_rec_all(spec_sort_recs(s.drop_last()), s.last(), p);
    }
}

/// The records are pairwise ordered: no later record sorts strictly before
/// an earlier one.
pub open spec fn recs_sorted(s: Seq<CapRec>) -> bool {
    forall|i: int, j: int| 0 <= i <= j < s.len() ==> !cap_lt(#[trigger] s[j], #[trigger] s[i])
}

proof fn lemma_insert_rec_sorted(s: Seq<CapRec>, x: CapRec)
    requires
        recs_sorted(s),
    ensures
        recs_sorted(spec_insert_rec(s, x)),
    decreases s.len(),
{
    if s.len() == 0 {
    } else if cap_lt(x, s.last()) {
        lemma_insert_rec_sorted(s.drop_last(), x);
        lemma_insert_rec_all(
            s.drop_last(),
            x,
            |y: CapRec| !cap_lt(s.last(), y),
        );
    } else {
        assert forall|i: int| 0 <= i < s.len() implies !cap_lt(x, #[trigger] s[i]) by {
            assert(!cap_lt(s[s.len() - 1], s[i]));
        }
    }
}

/// Law: the stable sort of the capture records orders them by position,
/// pops before pushes at one position, and longer captures before shorter
/// ones among pushes; remaining ties keep their declaration order (the sort
/// is the stable insertion `spec_insert_rec`).
pub proof fn lemma_sort_recs_sorted(s: Seq<CapRec>)
    ensures
        recs_sorted(spec_sort_recs(s)),
    decreases s.len(),
{
    if s.len() > 0 {
        lemma_sort_recs_sorted(s.drop_last());
        lemma_insert_rec_sorted(spec_sort_recs(s.drop_last()), s.last());
    }
}

/// Law: every operation one match emits carries an offset within the match
/// span, and the offsets are non-decreasing, provided every capture group
/// the engine reported lies within the span of the whole match.
pub proof fn lemma_match_ops_sorted(
    cs: Seq<Context>,
    level: Context,
    pat: MatchPattern,
    regions: Seq<Option<(usize, usize)>>,
    ms: usize,
    me: usize,
)
    requires
        ms <= me,
        forall|i: int|
            0 <= i < regions.len() ==> (#[trigger] regions[i] matches Some(q) ==> ms <= q.0
                && q.0 <= q.1 && q.1 <= me),
    ensures
        offsets_within(spec_match_ops(cs, level, pat, regions, ms, me), ms as int, me as int),
        offsets_nondecreasing(spec_match_ops(cs, level, pat, regions, ms, me)),
{
    lemma_meta_initial_at(cs, level, pat.operation, ms);
    lemma_push_scopes_at(pat.scope@, ms);
    lemma_meta_trailing_at(cs, level, pat.operation, me);
    match pat.captures {
        Option::Some(m) => {
            lemma_capture_recs_in(m@, regions, ms as int, me as int);
            let recs = spec_capture_recs(m@, regions);
            lemma_sort_recs_all(recs, |y: CapRec| ms <= y.pos <= me);
            lemma_sort_recs_sorted(recs);
            let sorted = spec_sort_recs(recs);
            assert forall|i: int|
                0 <= i < spec_recs_to_ops(sorted).len() implies ms <= (
            #[trigger] spec_recs_to_ops(sorted)[i]).0 <= me by {
                assert(spec_recs_to_ops(sorted)[i].0 == sorted[i].pos);
            }
            assert forall|i: int, j: int|
                0 <= i <= j < spec_recs_to_ops(sorted).len() implies (#[trigger] spec_recs_to_ops(
                sorted,
            )[i]).0 <= (#[trigger] spec_recs_to_ops(sorted)[j]).0 by {
                assert(!cap_lt(sorted[j], sorted[i]));
            }
        },
        Option::None => {},
    }
}

/// Law: a push announces its targets' `clear_scopes` before the matched
/// token; nothing it emits after the token is a `Clear`.
pub proof fn lemma_push_emits_no_trailing_clear(
    cs: Seq<Context>,
    level: Context,
    refs: Seq<ContextId>,
    index: usize,
)
    ensures
        no_clear(spec_trailing_change(cs, level, refs, false, index)),
{
    lemma_reenter_no_clear(cs, refs, index);
}

proof fn lemma_reenter_no_clear(cs: Seq<Context>, refs: Seq<ContextId>, index: usize)
    ensures
        no_clear(spec_reenter_targets(cs, refs, false, index)),
    decreases refs.len(),
{
    if refs.len() > 0 {
        lemma_reenter_no_clear(cs, refs.drop_last(), index);
        lemma_push_scopes_no_clear(cs[refs.last() as int].meta_scope@, index);
        lemma_push_scopes_no_clear(cs[refs.last() as int].meta_content_scope@, index);
    }
}

proof fn lemma_push_scopes_no_clear(scopes: Seq<crate::scope::Scope>, index: usize)
    ensures
        no_clear(spec_push_scopes(scopes, index)),
{
    assert forall|i: int| 0 <= i < spec_push_scopes(scopes, index).len() implies !((
    #[trigger] spec_push_scopes(scopes, index)[i]).1 is Clear) by {}
}

/// Law: a set announces its targets' `clear_scopes` only after the matched
/// token; nothing it emits before the token is a `Clear`.
pub proof fn lemma_set_emits_no_leading_clear(cs: Seq<Context>, refs: Seq<ContextId>, index: usize)
    ensures
        no_clear(spec_enter_targets(cs, refs, true, index)),
    decreases refs.len(),
{
    if refs.len() > 0 {
        lemma_set_emits_no_leading_clear(cs, refs.drop_last(), index);
        lemma_push_scopes_no_clear(cs[refs.last() as int].meta_scope@, index);
    }
}

/// How many scopes the sequence pushes.
pub open spec fn push_count(s: Seq<(usize, ScopeStackOp)>) -> int
    decreases s.len(),
{
    if s.len() == 0 {
        0
    } else {
        push_count(s.drop_last()) + (if s.last().1 is Push {
            1int
        } else {
            0int
        })
    }
}

/// How many scopes the sequence pops.
pub open spec fn pop_total(s: Seq<(usize, ScopeStackOp)>) -> int
    decreases s.len(),
{
    if s.len() == 0 {
        0
    } else {
        pop_total(s.drop_last()) + (match s.last().1 {
            ScopeStackOp::Pop(n) => n as int,
            _ => 0int,
        })
    }
}

proof fn lemma_counts_concat(a: Seq<(usize, ScopeStackOp)>, b: Seq<(usize, ScopeStackOp)>)
    ensures
        push_count(a + b) == push_count(a) + push_count(b),
        pop_total(a + b) == pop_total(a) + pop_total(b),
    decreases b.len(),
{
    if b.len() == 0 {
        assert(a + b =~= a);
    } else {
        lemma_counts_concat(a, b.drop_last());
        assert((a + b).drop_last() =~= a + b.drop_last());
        assert((a + b).last() == b.last());
    }
}

/// Scopes pushed minus scopes popped by a record sequence's operations.
pub open spec fn recs_balance(s: Seq<CapRec>) -> int
    decreases s.len(),
{
    if s.len() == 0 {
        0
    } else {
        recs_balance(s.drop_last()) + (match s.last().op {
            ScopeStackOp::Push(_) => 1int,
            ScopeStackOp::Pop(n) => -(n as int),
            _ => 0int,
        })
    }
}

proof fn lemma_recs_balance_to_ops(s: Seq<CapRec>)
    ensures
        push_count(spec_recs_to_ops(s)) - pop_total(spec_recs_to_ops(s)) == recs_balance(s),
    decreases s.len(),
{
    if s.len() > 0 {
        lemma_recs_balance_to_ops(s.drop_last());
        assert(spec_recs_to_ops(s).drop_last() =~= spec_recs_to_ops(s.drop_last()));
        assert(spec_recs_to_ops(s).last() == (s.last().pos, s.last().op));
    }
}

proof fn lemma_insert_rec_balance(s: Seq<CapRec>, x: CapRec)
    ensures
        recs_balance(spec_insert_rec(s, x)) == recs_balance(s) + (match x.op {
            ScopeStackOp::Push(_) => 1int,
            ScopeStackOp::Pop(n) => -(n as int),
            _ => 0int,
        }),
    decreases s.len(),
{
    if s.len() == 0 {
        assert(spec_insert_rec(s, x) =~= seq![x]);
        assert(seq![x].drop_last() =~= Seq::<CapRec>::empty());
        assert(recs_balance(Seq::<CapRec>::empty()) == 0);
    } else if cap_lt(x, s.last()) {
        lemma_insert_rec_balance(s.drop_last(), x);
        assert(spec_insert_rec(s, x).drop_last() =~= spec_insert_rec(s.drop_last(), x));
        assert(spec_insert_rec(s, x).last() == s.last());
    } else {
        assert(spec_insert_rec(s, x) == s.push(x));
        assert(s.push(x).drop_last() =~= s);
        assert(s.push(x).last() == x);
    }
}

proof fn lemma_sort_recs_balance(s: Seq<CapRec>)
    ensures
        recs_balance(spec_sort_recs(s)) == recs_balance(s),
    decreases s.len(),
{
    if s.len() > 0 {
        lemma_sort_recs_balance(s.drop_last());
        lemma_insert_rec_balance(spec_sort_recs(s.drop_last()), s.last());
    }
}

proof fn lemma_cap_push_recs_balance(scopes: Seq<crate::scope::Scope>, p: (usize, usize))
    ensures
        recs_balance(spec_cap_push_recs(scopes, p)) == scopes.len(),
    decreases scopes.len(),
{
    if scopes.len() > 0 {
        lemma_cap_push_recs_balance(scopes.drop_last(), p);
        assert(spec_cap_push_recs(scopes, p).drop_last() =~= spec_cap_push_recs(
            scopes.drop_last(),
            p,
        ));
    }
}

proof fn lemma_recs_balance_concat(a: Seq<CapRec>, b: Seq<CapRec>)
    ensures
        recs_balance(a + b) == recs_balance(a) + recs_balance(b),
    decreases b.len(),
{
    if b.len() == 0 {
        assert(a + b =~= a);
    } else {
        lemma_recs_balance_concat(a, b.drop_last());
        assert((a + b).drop_last() =~= a + b.drop_last());
    }
}

proof fn lemma_cap_entry_recs_balance(
    ci: usize,
    scopes: Seq<crate::scope::Scope>,
    regions: Seq<Option<(usize, usize)>>,
)
    requires
        scopes.len() <= usize::MAX,
    ensures
        recs_balance(spec_cap_entry_recs(ci, scopes, regions)) == 0,
{
    if (ci as int) < regions.len() && (regions[ci as int] matches Some(p) && p.0 != p.1) {
        let p = regions[ci as int]->Some_0;
        lemma_cap_push_recs_balance(scopes, p);
        assert(spec_cap_entry_recs(ci, scopes, regions).drop_last() =~= spec_cap_push_recs(
            scopes,
            p,
        ));
        assert(spec_cap_entry_recs(ci, scopes, regions).last() == CapRec {
            pos: p.1,
            len: 0,
            is_pop: true,
            op: ScopeStackOp::Pop(scopes.len() as usize),
        });
    }
}

proof fn lemma_capture_recs_balance(
    capmap: Seq<(usize, Vec<crate::scope::Scope>)>,
    regions: Seq<Option<(usize, usize)>>,
)
    requires
        forall|k: int| 0 <= k < capmap.len() ==> (#[trigger] capmap[k]).1@.len() <= usize::MAX,
    ensures
        recs_balance(spec_capture_recs(capmap, regions)) == 0,
    decreases capmap.len(),
{
    if capmap.len() > 0 {
        lemma_capture_recs_balance(capmap.drop_last(), regions);
        lemma_cap_entry_recs_balance(capmap.last().0, capmap.last().1@, regions);
        lemma_recs_balance_concat(
            spec_capture_recs(capmap.drop_last(), regions),
            spec_cap_entry_recs(capmap.last().0, capmap.last().1@, regions),
        );
    }
}

proof fn lemma_push_scopes_counts(scopes: Seq<crate::scope::Scope>, index: usize)
    ensures
        push_count(spec_push_scopes(scopes, index)) == scopes.len(),
        pop_total(spec_push_scopes(scopes, index)) == 0,
    decreases scopes.len(),
{
    if scopes.len() > 0 {
        lemma_push_scopes_counts(scopes.drop_last(), index);
        assert(spec_push_scopes(scopes, index).drop_last() =~= spec_push_scopes(
            scopes.drop_last(),
            index,
        ));
        assert(spec_push_scopes(scopes, index).last() == (
            index,
            ScopeStackOp::Push(scopes.last()),
        ));
    }
}

/// Law: a match whose pattern has no stack action pushes exactly as many
/// scopes as it pops; over a line of such matches the consumer's stack ends
/// where it began.
pub proof fn lemma_no_change_ops_balanced(
    cs: Seq<Context>,
    level: Context,
    pat: MatchPattern,
    regions: Seq<Option<(usize, usize)>>,
    ms: usize,
    me: usize,
)
    requires
        pat.operation is NoOp,
        pat.scope@.len() <= usize::MAX,
        pat.captures matches Some(m) ==> forall|k: int|
            0 <= k < m@.len() ==> (#[trigger] m@[k]).1@.len() <= usize::MAX,
    ensures
        push_count(spec_match_ops(cs, level, pat, regions, ms, me)) == pop_total(
            spec_match_ops(cs, level, pat, regions, ms, me),
        ),
{
    let metas_i = spec_meta_initial(cs, level, pat.operation, ms);
    let scopes_part = spec_push_scopes(pat.scope@, ms);
    let caps = spec_capture_ops(pat, regions);
    let lit_pop = if pat.scope@.len() > 0 {
        seq![(me, ScopeStackOp::Pop(pat.scope@.len() as usize))]
    } else {
        Seq::<(usize, ScopeStackOp)>::empty()
    };
    let metas_t = spec_meta_trailing(cs, level, pat.operation, me);
    assert(metas_i =~= Seq::<(usize, ScopeStackOp)>::empty());
    assert(metas_t =~= Seq::<(usize, ScopeStackOp)>::empty());
    lemma_push_scopes_counts(pat.scope@, ms);
    match pat.captures {
        Option::Some(m) => {
            lemma_capture_recs_balance(m@, regions);
            lemma_sort_recs_balance(spec_capture_recs(m@, regions));
            lemma_recs_balance_to_ops(spec_sort_recs(spec_capture_recs(m@, regions)));
        },
        Option::None => {},
    }
    assert(push_count(Seq::<(usize, ScopeStackOp)>::empty()) == 0);
    assert(pop_total(Seq::<(usize, ScopeStackOp)>::empty()) == 0);
    if pat.scope@.len() > 0 {
        assert(lit_pop.drop_last() =~= Seq::<(usize, ScopeStackOp)>::empty());
        assert(push_count(lit_pop) == 0);
        assert(pop_total(lit_pop) == pat.scope@.len());
    }
    lemma_counts_concat(metas_i, scopes_part);
    lemma_counts_concat(metas_i + scopes_part, caps);
    lemma_counts_concat(metas_i + scopes_part + caps, lit_pop);
    lemma_counts_concat(metas_i + scopes_part + caps + lit_pop, metas_t);
}

/// Law: every operation a match emits applies at an offset within the line,
/// as long as the match and every reported capture group end within it.
pub proof fn lemma_match_ops_le(
    cs: Seq<Context>,
    level: Context,
    pat: MatchPattern,
    regions: Seq<Option<(usize, usize)>>,
    ms: usize,
    me: usize,
    linelen: int,
)
    requires
        ms <= linelen,
        me <= linelen,
        forall|i: int|
            0 <= i < regions.len() ==> (#[trigger] regions[i] matches Some(q) ==> q.0 <= q.1
                && q.1 <= linelen),
    ensures
        offsets_within(spec_match_ops(cs, level, pat, regions, ms, me), 0, linelen),
{
    lemma_meta_initial_at(cs, level, pat.operation, ms);
    lemma_push_scopes_at(pat.scope@, ms);
    lemma_meta_trailing_at(cs, level, pat.operation, me);
    match pat.captures {
        Option::Some(m) => {
            lemma_capture_recs_in(m@, regions, 0, linelen);
            let recs = spec_capture_recs(m@, regions);
            lemma_sort_recs_all(recs, |y: CapRec| 0 <= y.pos <= linelen);
            let sorted = spec_sort_recs(recs);
            assert forall|i: int|
                0 <= i < spec_recs_to_ops(sorted).len() implies 0 <= (
            #[trigger] spec_recs_to_ops(sorted)[i]).0 <= linelen by {
                assert(spec_recs_to_ops(sorted)[i].0 == sorted[i].pos);
            }
        },
        Option::None => {},
    }
}

/// Law: a line's operations stay in order as matches are appended: if the
/// operations so far never pass position `s`, and one match's operations
/// are in order and start at or after `s`, the whole sequence is in order.
/// With `lemma_match_ops_sorted`, and the driver resuming each search at
/// the previous match's end, this carries the ordering across a line.
pub proof fn lemma_sorted_append(
    a: Seq<(usize, ScopeStackOp)>,
    b: Seq<(usize, ScopeStackOp)>,
    s: int,
    hi: int,
)
    requires
        offsets_nondecreasing(a),
        forall|k: int| 0 <= k < a.len() ==> (#[trigger] a[k]).0 <= s,
        offsets_within(b, s, hi),
        offsets_nondecreasing(b),
    ensures
        offsets_nondecreasing(a + b),
{
    assert forall|i: int, j: int|
        0 <= i <= j < (a + b).len() implies (#[trigger] (a + b)[i]).0 <= (#[trigger] (a + b)[j]).0 by {
        if i < a.len() && j >= a.len() {
            assert((a + b)[i] == a[i]);
            assert((a + b)[j] == b[j - a.len()]);
        }
    }
}

} // verus!
