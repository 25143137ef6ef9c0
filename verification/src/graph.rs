//! The read-only context graph the parser walks: an arena of contexts, each
//! holding ordered entries (match patterns, or splices of another context's
//! patterns), meta scopes, and an optional prototype reference.

use vstd::prelude::*;
use vstd::pervasive::VecAdditionalExecFns;
use crate::adapter::{compile_pattern, compiles, regex_pattern};
use crate::scope::{ClearAmount, Scope};

verus! {

/// A context reference: an index into the graph's arena.
pub type ContextId = usize;

/// Largest allowed arena and entry-list length; keeps identities packable.
pub const MAX_ARENA: usize = 0xFFFF_FFFF;

/// Budget on the meta scopes one stack action may have to count, so that the
/// scope arithmetic of the emitter cannot overflow.
pub const MAX_META: usize = 0x7FFF_FFFF;

/// What a winning match does to the context stack.
#[derive(Debug)]
pub enum MatchOperation {
    /// Leave the stack alone.
    NoOp,
    /// Push one frame per target, in order.
    Push(Vec<ContextId>),
    /// Sublime's `set` action: pop the top frame, then push one frame per
    /// target, in order.
    SetTo(Vec<ContextId>),
    /// Pop the top frame.
    Pop,
}

/// One rule of a context.
#[derive(Debug)]
pub struct MatchPattern {
    /// The regex source, UTF-8; may hold `\1`-style back-reference
    /// placeholders that are substituted at use.
    pub regex_str: Vec<u8>,
    /// True when `regex_str` holds back-reference placeholders.
    pub has_captures: bool,
    /// Scopes pushed over the matched token and popped at its end.
    pub scope: Vec<Scope>,
    /// Scopes pushed over individual capture groups of the match.
    pub captures: Option<Vec<(usize, Vec<Scope>)>>,
    pub operation: MatchOperation,
    /// Extra prototype attached to the last frame this pattern pushes.
    pub with_prototype: Option<ContextId>,
}

/// An element of a context's ordered rule list.
#[derive(Debug)]
pub enum ContextEntry {
    /// A rule of this context itself.
    Match(MatchPattern),
    /// Splices the patterns of the target context in place, recursively.
    Embed(ContextId),
}

/// A node of the syntax graph.
#[derive(Debug)]
pub struct Context {
    pub entries: Vec<ContextEntry>,
    /// Applied while this context sits on the stack.
    pub meta_scope: Vec<Scope>,
    /// Applied to content matched within this context.
    pub meta_content_scope: Vec<Scope>,
    /// Scopes to hide upon entry.
    pub clear_scopes: Option<ClearAmount>,
    /// A context whose patterns are consulted before this one's.
    pub prototype: Option<ContextId>,
    /// True when some pattern of this context uses back-references, so a
    /// frame for it must carry a capture snapshot.
    pub uses_backrefs: bool,
}

/// The targets a stack action pushes.
pub open spec fn op_targets(op: MatchOperation) -> Seq<ContextId> {
    match op {
        MatchOperation::Push(v) => v@,
        MatchOperation::SetTo(v) => v@,
        _ => Seq::empty(),
    }
}

pub open spec fn ids_in_range(ids: Seq<ContextId>, n: int) -> bool {
    forall|k: int| 0 <= k < ids.len() ==> (#[trigger] ids[k]) < n
}

/// Meta scopes that pushing target `t` adds (or a later pop removes).
pub open spec fn target_meta_len(cs: Seq<Context>, t: ContextId) -> int {
    cs[t as int].meta_scope@.len() as int + cs[t as int].meta_content_scope@.len() as int
}

pub open spec fn targets_meta_sum(cs: Seq<Context>, refs: Seq<ContextId>) -> int
    decreases refs.len(),
{
    if refs.len() == 0 {
        0
    } else {
        targets_meta_sum(cs, refs.drop_last()) + target_meta_len(cs, refs.last())
    }
}

pub open spec fn pattern_wf(p: MatchPattern, cs: Seq<Context>) -> bool {
    &&& ids_in_range(op_targets(p.operation), cs.len() as int)
    &&& (p.with_prototype matches Some(w) ==> w < cs.len())
    &&& targets_meta_sum(cs, op_targets(p.operation)) <= MAX_META as int
}

pub open spec fn entry_wf(e: ContextEntry, cs: Seq<Context>) -> bool {
    match e {
        ContextEntry::Match(p) => pattern_wf(p, cs),
        ContextEntry::Embed(t) => t < cs.len(),
    }
}

pub open spec fn context_wf(c: Context, cs: Seq<Context>) -> bool {
    &&& c.entries@.len() <= MAX_ARENA as int
    &&& (c.prototype matches Some(pr) ==> pr < cs.len())
    &&& c.meta_scope@.len() + c.meta_content_scope@.len() <= MAX_META as int
    &&& forall|i: int| 0 <= i < c.entries@.len() ==> entry_wf(#[trigger] c.entries@[i], cs)
}

/// What `ContextGraph::build` accepts: every reference lands in the arena and
/// every scope-count budget is respected.
pub open spec fn arena_wf(cs: Seq<Context>, start: ContextId) -> bool {
    &&& cs.len() <= MAX_ARENA as int
    &&& start < cs.len()
    &&& forall|c: int| 0 <= c < cs.len() ==> context_wf(#[trigger] cs[c], cs)
}

/// A flattened pattern identity: context index and entry index of a `Match`.
pub open spec fn pair_is_match(cs: Seq<Context>, pr: (usize, usize)) -> bool {
    &&& (pr.0 as int) < cs.len()
    &&& (pr.1 as int) < cs[pr.0 as int].entries@.len()
    &&& cs[pr.0 as int].entries@[pr.1 as int] is Match
}

/// Fresh walk marks: only the root context counts as already expanded.
pub open spec fn init_visited(n: int, c: int) -> Seq<bool> {
    Seq::new(n as nat, |j: int| j == c)
}

/// One context's whole expansion on a walk with marks `visited`, the
/// nesting depth bounded by `fuel` (spent once per splice).
pub open spec fn spec_flat_ctx(cs: Seq<Context>, c: int, visited: Seq<bool>, fuel: nat) -> (Seq<
    (usize, usize),
>, Seq<bool>)
    decreases fuel, 1nat, 0nat,
{
    if fuel == 0 {
        (Seq::empty(), visited)
    } else {
        spec_flat_from(cs, c, 0, visited, fuel)
    }
}

/// The expansion of context `c` from entry `i` on: a `Match` contributes its
/// own pair, an `Embed` splices the target's expansion in place first -
/// unless the target is already marked, so no context is expanded twice on
/// one walk.
pub open spec fn spec_flat_from(cs: Seq<Context>, c: int, i: int, visited: Seq<bool>, fuel: nat) -> (
    Seq<(usize, usize)>,
    Seq<bool>,
)
    decreases fuel, 0nat, (if 0 <= c < cs.len() && i <= cs[c].entries@.len() {
        cs[c].entries@.len() - i
    } else {
        0
    }),
{
    if !(0 <= c < cs.len()) || !(0 <= i) || i >= cs[c].entries@.len() || fuel == 0 {
        (Seq::empty(), visited)
    } else {
        match cs[c].entries@[i] {
            ContextEntry::Match(_) => {
                let rest = spec_flat_from(cs, c, i + 1, visited, fuel);
                (seq![(c as usize, i as usize)] + rest.0, rest.1)
            },
            ContextEntry::Embed(t) => {
                if (t as int) < visited.len() && !visited[t as int] {
                    let vis1 = visited.update(t as int, true);
                    let sub = spec_flat_ctx(cs, t as int, vis1, (fuel - 1) as nat);
                    let rest = spec_flat_from(cs, c, i + 1, sub.1, fuel);
                    (sub.0 + rest.0, rest.1)
                } else {
                    spec_flat_from(cs, c, i + 1, visited, fuel)
                }
            },
        }
    }
}

/// The flattened pattern list of context `c`: its entries in declaration
/// order with splices expanded recursively in place, re-entry suppressed,
/// on a fresh walk whose depth budget is the arena size.
pub open spec fn spec_context_row(cs: Seq<Context>, c: int) -> Seq<(usize, usize)> {
    spec_flat_ctx(cs, c, init_visited(cs.len() as int, c), cs.len() as nat).0
}

/// A compiled syntax graph, ready for parsing: the arena, the designated
/// start context, per-context flattened pattern lists (splices expanded),
/// and one eagerly compiled regex per pattern (`None` when the engine
/// rejected it: such a pattern never matches).
pub struct ContextGraph {
    pub contexts: Vec<Context>,
    pub start: ContextId,
    pub flat: Vec<Vec<(usize, usize)>>,
    pub compiled: Vec<Vec<Option<onig::Regex>>>,
    pub step_allowance: usize,
}

impl ContextGraph {
    pub open spec fn cs(&self) -> Seq<Context> {
        self.contexts@
    }

    pub open spec fn wf(&self) -> bool {
        &&& arena_wf(self.contexts@, self.start)
        &&& self.flat@.len() == self.contexts@.len()
        &&& self.compiled@.len() == self.contexts@.len()
        &&& forall|c: int|
            0 <= c < self.contexts@.len() ==> (#[trigger] self.compiled@[c])@.len()
                == self.contexts@[c].entries@.len()
        &&& forall|c: int, i: int|
            0 <= c < self.contexts@.len() && 0 <= i < self.compiled@[c]@.len() ==> ((
            #[trigger] self.compiled@[c]@[i]) matches Some(rx)
                ==> (self.contexts@[c].entries@[i] matches ContextEntry::Match(p)
                && regex_pattern(rx) == p.regex_str@))
        &&& forall|c: int, j: int|
            0 <= c < self.flat@.len() && 0 <= j < self.flat@[c]@.len() ==> pair_is_match(
                self.contexts@,
                #[trigger] self.flat@[c]@[j],
            )
        &&& forall|c: int, i: int|
            0 <= c < self.contexts@.len() && 0 <= i < self.compiled@[c]@.len() ==> ((
            #[trigger] self.compiled@[c]@[i]) is Some <==> (
            self.contexts@[c].entries@[i] matches ContextEntry::Match(p) && compiles(
                p.regex_str@,
            )))
        &&& forall|c: int|
            0 <= c < self.contexts@.len() ==> (#[trigger] self.flat@[c])@ == spec_context_row(
                self.contexts@,
                c,
            )
        &&& self.step_allowance >= 1
    }

    /// The designated start context.
    pub fn start_context(&self) -> (r: ContextId)
        ensures
            r == self.start,
    {
        self.start
    }
}

/// Prefix sums never exceed the whole sum: every term is nonnegative.
proof fn lemma_meta_sum_prefix(cs: Seq<Context>, refs: Seq<ContextId>, k: int)
    requires
        0 <= k <= refs.len(),
    ensures
        targets_meta_sum(cs, refs.subrange(0, k)) <= targets_meta_sum(cs, refs),
    decreases refs.len(),
{
    if k == refs.len() {
        assert(refs.subrange(0, k) =~= refs);
    } else {
        assert(refs.drop_last().subrange(0, k) =~= refs.subrange(0, k));
        lemma_meta_sum_prefix(cs, refs.drop_last(), k);
    }
}

/// Checks the target list of one stack action: all in range, meta budget met.
fn check_targets(contexts: &Vec<Context>, refs: &Vec<ContextId>) -> (b: bool)
    requires
        forall|c: int|
            0 <= c < contexts@.len() ==> (#[trigger] contexts@[c]).meta_scope@.len()
                + contexts@[c].meta_content_scope@.len() <= MAX_META as int,
    ensures
        b == (ids_in_range(refs@, contexts@.len() as int) && targets_meta_sum(contexts@, refs@)
            <= MAX_META as int),
{
    let n = contexts.len();
    let mut acc: usize = 0;
    let mut k: usize = 0;
    while k < refs.len()
        invariant
            0 <= k <= refs@.len(),
            n == contexts@.len(),
            forall|c: int|
                0 <= c < contexts@.len() ==> (#[trigger] contexts@[c]).meta_scope@.len()
                    + contexts@[c].meta_content_scope@.len() <= MAX_META as int,
            ids_in_range(refs@.subrange(0, k as int), n as int),
            acc == targets_meta_sum(contexts@, refs@.subrange(0, k as int)),
            acc <= MAX_META,
        decreases refs@.len() - k,
    {
        let t = refs[k];
        if t >= n {
            proof {
                assert(refs@[k as int] == t);
                assert(!ids_in_range(refs@, n as int));
            }
            return false;
        }
        let tlen = contexts[t].meta_scope.len() + contexts[t].meta_content_scope.len();
        proof {
            assert(refs@.subrange(0, k + 1).drop_last() =~= refs@.subrange(0, k as int));
        }
        if tlen > MAX_META - acc {
            proof {
                lemma_meta_sum_prefix(contexts@, refs@, k + 1);
            }
            return false;
        }
        acc = acc + tlen;
        proof {
            assert(ids_in_range(refs@.subrange(0, k + 1), n as int)) by {
                assert(forall|j: int|
                    0 <= j < k + 1 ==> refs@.subrange(0, k + 1)[j] == refs@.subrange(
                        0,
                        k as int,
                    ).push(refs@[k as int])[j]);
            }
        }
        k = k + 1;
    }
    proof {
        assert(refs@.subrange(0, k as int) =~= refs@);
    }
    true
}

/// Checks everything `arena_wf` asks of one arena.
fn check_arena(contexts: &Vec<Context>, start: ContextId) -> (b: bool)
    ensures
        b == arena_wf(contexts@, start),
{
    let n = contexts.len();
    if n > MAX_ARENA || start >= n {
        return false;
    }
    // First pass: per-context bounds, so that target sums cannot overflow.
    let mut c: usize = 0;
    while c < n
        invariant
            0 <= c <= n,
            n == contexts@.len(),
            forall|x: int|
                0 <= x < c ==> (#[trigger] contexts@[x]).meta_scope@.len()
                    + contexts@[x].meta_content_scope@.len() <= MAX_META as int,
        decreases n - c,
    {
        let ms = contexts[c].meta_scope.len();
        let mcs = contexts[c].meta_content_scope.len();
        if ms > MAX_META || mcs > MAX_META - ms {
            return false;
        }
        c = c + 1;
    }
    // Second pass: the remaining conjuncts of `context_wf`, context by context.
    let mut c: usize = 0;
    while c < n
        invariant
            0 <= c <= n,
            n == contexts@.len(),
            n <= MAX_ARENA,
            start < n,
            forall|x: int|
                0 <= x < contexts@.len() ==> (#[trigger] contexts@[x]).meta_scope@.len()
                    + contexts@[x].meta_content_scope@.len() <= MAX_META as int,
            forall|x: int| 0 <= x < c ==> context_wf(#[trigger] contexts@[x], contexts@),
        decreases n - c,
    {
        if contexts[c].entries.len() > MAX_ARENA {
            return false;
        }
        match contexts[c].prototype {
            Some(pr) => if pr >= n {
                return false;
            },
            None => {},
        }
        let mut i: usize = 0;
        while i < contexts[c].entries.len()
            invariant
                0 <= c < n,
                0 <= i <= contexts@[c as int].entries@.len(),
                n == contexts@.len(),
                forall|x: int|
                    0 <= x < contexts@.len() ==> (#[trigger] contexts@[x]).meta_scope@.len()
                        + contexts@[x].meta_content_scope@.len() <= MAX_META as int,
                forall|y: int|
                    0 <= y < i ==> entry_wf(#[trigger] contexts@[c as int].entries@[y], contexts@),
            decreases contexts@[c as int].entries@.len() - i,
        {
            match &contexts[c].entries[i] {
                ContextEntry::Embed(t) => if *t >= n {
                    return false;
                },
                ContextEntry::Match(p) => {
                    match p.with_prototype {
                        Some(w) => if w >= n {
                            return false;
                        },
                        None => {},
                    }
                    let ok = match &p.operation {
                        MatchOperation::Push(refs) => check_targets(contexts, refs),
                        MatchOperation::SetTo(refs) => check_targets(contexts, refs),
                        _ => true,
                    };
                    if !ok {
                        return false;
                    }
                },
            }
            i = i + 1;
        }
        c = c + 1;
    }
    true
}

/// Expands one context's entry list into flattened `(context, entry)` pairs,
/// following splices depth-first; a context already expanded on this walk is
/// not entered again, so cyclic splices cannot recurse.
fn flatten_into(
    contexts: &Vec<Context>,
    c: usize,
    visited: &mut Vec<bool>,
    out: &mut Vec<(usize, usize)>,
    fuel: usize,
)
    requires
        c < contexts@.len(),
        old(visited)@.len() == contexts@.len(),
        forall|x: int| 0 <= x < contexts@.len() ==> context_wf(#[trigger] contexts@[x], contexts@),
        forall|j: int|
            0 <= j < old(out)@.len() ==> pair_is_match(contexts@, #[trigger] old(out)@[j]),
    ensures
        final(visited)@.len() == contexts@.len(),
        forall|j: int|
            0 <= j < final(out)@.len() ==> pair_is_match(contexts@, #[trigger] final(out)@[j]),
        final(out)@ == old(out)@ + spec_flat_ctx(
            contexts@,
            c as int,
            old(visited)@,
            fuel as nat,
        ).0,
        final(visited)@ == spec_flat_ctx(contexts@, c as int, old(visited)@, fuel as nat).1,
    decreases fuel,
{
    if fuel == 0 {
        proof {
            assert(out@ =~= out@ + spec_flat_ctx(contexts@, c as int, visited@, fuel as nat).0);
        }
        return ;
    }
    let ghost vis0 = visited@;
    let ghost base = out@.len() as int;
    let ghost total = spec_flat_from(contexts@, c as int, 0, vis0, fuel as nat);
    let mut i: usize = 0;
    while i < contexts[c].entries.len()
        invariant
            c < contexts@.len(),
            0 <= i <= contexts@[c as int].entries@.len(),
            visited@.len() == contexts@.len(),
            fuel >= 1,
            base == old(out)@.len() as int,
            total == spec_flat_from(contexts@, c as int, 0, vis0, fuel as nat),
            vis0 == old(visited)@,
            forall|x: int|
                0 <= x < contexts@.len() ==> context_wf(#[trigger] contexts@[x], contexts@),
            forall|j: int| 0 <= j < out@.len() ==> pair_is_match(contexts@, #[trigger] out@[j]),
            out@.len() >= base,
            out@.subrange(0, base) == old(out)@,
            total.0 == out@.skip(base) + spec_flat_from(
                contexts@,
                c as int,
                i as int,
                visited@,
                fuel as nat,
            ).0,
            total.1 == spec_flat_from(contexts@, c as int, i as int, visited@, fuel as nat).1,
        decreases contexts@[c as int].entries@.len() - i,
    {
        let ghost pend = spec_flat_from(contexts@, c as int, i as int, visited@, fuel as nat);
        match &contexts[c].entries[i] {
            ContextEntry::Match(_) => {
                let ghost pre = out@;
                out.push((c, i));
                proof {
                    assert(pend.0 == seq![(c, i)] + spec_flat_from(
                        contexts@,
                        c as int,
                        i + 1,
                        visited@,
                        fuel as nat,
                    ).0);
                    assert(out@.subrange(0, base) =~= pre.subrange(0, base));
                    assert(out@.skip(base) =~= pre.skip(base) + seq![(c, i)]);
                    assert(out@.skip(base) + spec_flat_from(
                        contexts@,
                        c as int,
                        i + 1,
                        visited@,
                        fuel as nat,
                    ).0 =~= pre.skip(base) + pend.0);
                }
            },
            ContextEntry::Embed(t) => {
                let t = *t;
                if !visited[t] {
                    let ghost pre_vis = visited@;
                    let ghost pre = out@;
                    visited.set(t, true);
                    let ghost vis1 = visited@;
                    proof {
                        assert(vis1 == pre_vis.update(t as int, true));
                    }
                    flatten_into(contexts, t, visited, out, fuel - 1);
                    proof {
                        let sub = spec_flat_ctx(contexts@, t as int, vis1, (fuel - 1) as nat);
                        assert(pend.0 == sub.0 + spec_flat_from(
                            contexts@,
                            c as int,
                            i + 1,
                            sub.1,
                            fuel as nat,
                        ).0);
                        assert(out@.subrange(0, base) =~= pre.subrange(0, base));
                        assert(out@.skip(base) =~= pre.skip(base) + sub.0);
                        assert(out@.skip(base) + spec_flat_from(
                            contexts@,
                            c as int,
                            i + 1,
                            visited@,
                            fuel as nat,
                        ).0 =~= pre.skip(base) + pend.0);
                    }
                }
            },
        }
        i = i + 1;
    }
    proof {
        assert(spec_flat_from(contexts@, c as int, i as int, visited@, fuel as nat).0
            =~= Seq::<(usize, usize)>::empty());
        assert(total.0 =~= out@.skip(base));
        assert(out@ =~= out@.subrange(0, base) + out@.skip(base));
        assert(out@ =~= old(out)@ + spec_flat_ctx(contexts@, c as int, old(visited)@, fuel as nat).0);
    }
}

impl ContextGraph {
    /// Validates an arena, expands every context's splices into a flat
    /// pattern list, and compiles every pattern's regex. `None` exactly when
    /// a reference points outside the arena, a list is too long, or a stack
    /// action's meta-scope budget is exceeded.
    pub fn build(contexts: Vec<Context>, start: ContextId) -> (r: Option<ContextGraph>)
        ensures
            r matches Some(g) ==> g.wf() && g.contexts@ == contexts@ && g.start == start,
            r is Some <==> arena_wf(contexts@, start),
    {
        if !check_arena(&contexts, start) {
            return None;
        }
        let n = contexts.len();
        let mut flat: Vec<Vec<(usize, usize)>> = Vec::new();
        let mut compiled: Vec<Vec<Option<onig::Regex>>> = Vec::new();
        let mut allow: usize = 16;
        let mut c: usize = 0;
        while c < n
            invariant
                0 <= c <= n,
                n == contexts@.len(),
                arena_wf(contexts@, start),
                flat@.len() == c,
                compiled@.len() == c,
                allow >= 1,
                forall|x: int, j: int|
                    0 <= x < c && 0 <= j < flat@[x]@.len() ==> pair_is_match(
                        contexts@,
                        #[trigger] flat@[x]@[j],
                    ),
                forall|x: int|
                    0 <= x < c ==> (#[trigger] compiled@[x])@.len()
                        == contexts@[x].entries@.len(),
                forall|x: int, i: int|
                    0 <= x < c && 0 <= i < compiled@[x]@.len() ==> ((
                    #[trigger] compiled@[x]@[i]) matches Some(rx) ==> (
                    contexts@[x].entries@[i] matches ContextEntry::Match(p) && regex_pattern(rx)
                        == p.regex_str@)),
                forall|x: int, i: int|
                    0 <= x < c && 0 <= i < compiled@[x]@.len() ==> ((
                    #[trigger] compiled@[x]@[i]) is Some <==> (
                    contexts@[x].entries@[i] matches ContextEntry::Match(p) && compiles(
                        p.regex_str@,
                    ))),
                forall|x: int|
                    0 <= x < c ==> (#[trigger] flat@[x])@ == spec_context_row(contexts@, x),
            decreases n - c,
        {
            let mut visited: Vec<bool> = vec![false; n];
            visited.set(c, true);
            proof {
                assert(visited@ =~= init_visited(n as int, c as int));
            }
            let mut row: Vec<(usize, usize)> = Vec::new();
            flatten_into(&contexts, c, &mut visited, &mut row, n);
            proof {
                assert(row@ =~= spec_context_row(contexts@, c as int));
            }
            flat.push(row);

            let mut crow: Vec<Option<onig::Regex>> = Vec::new();
            let mut i: usize = 0;
            while i < contexts[c].entries.len()
                invariant
                    0 <= c < n,
                    n == contexts@.len(),
                    0 <= i <= contexts@[c as int].entries@.len(),
                    crow@.len() == i,
                    forall|y: int|
                        0 <= y < i ==> ((#[trigger] crow@[y]) matches Some(rx) ==> (
                        contexts@[c as int].entries@[y] matches ContextEntry::Match(p)
                            && regex_pattern(rx) == p.regex_str@)),
                    forall|y: int|
                        0 <= y < i ==> ((#[trigger] crow@[y]) is Some <==> (
                        contexts@[c as int].entries@[y] matches ContextEntry::Match(p)
                            && compiles(p.regex_str@))),
                    allow >= 1,
                decreases contexts@[c as int].entries@.len() - i,
            {
                match &contexts[c].entries[i] {
                    ContextEntry::Match(p) => {
                        crow.push(compile_pattern(&p.regex_str));
                        // Each pushed or set target can cost one un-flagged
                        // step per position; the budget must account for it.
                        match &p.operation {
                            MatchOperation::Push(refs) => {
                                allow = allow.saturating_add(refs.len());
                            },
                            MatchOperation::SetTo(refs) => {
                                allow = allow.saturating_add(refs.len());
                            },
                            _ => {},
                        }
                    },
                    ContextEntry::Embed(_) => {
                        crow.push(None);
                    },
                }
                i = i + 1;
            }
            compiled.push(crow);
            allow = allow.saturating_add(contexts[c].entries.len()).saturating_add(2);
            c = c + 1;
        }
        Some(ContextGraph { contexts, start, flat, compiled, step_allowance: allow })
    }
}

} // verus!
