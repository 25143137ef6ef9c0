//! The parse session: the context stack kept between lines, the match
//! selector with its per-line search cache and loop guard, and the per-line
//! driver `ParseState::parse_line`.

use vstd::prelude::*;
use vstd::string::StringSliceAdditionalSpecFns;
use std::collections::HashMap;
use crate::adapter::{compiles, search_found, search_pattern};
use crate::graph::{
    context_wf, entry_wf, op_targets, pair_is_match, pattern_wf, Context, ContextEntry,
    ContextGraph, ContextId, MatchOperation, MatchPattern,
};
use crate::ops::{emit_match_ops, spec_match_ops};
use crate::scope::ScopeStackOp;
use crate::subst::{spec_substituted, substituted_pattern};

verus! {

/// The capture snapshot a frame keeps when its context uses back-references:
/// the capture regions of the pushing match and a copy of the line they
/// index into.
pub struct CaptureSnapshot {
    pub regions: Vec<Option<(usize, usize)>>,
    pub line: Vec<u8>,
}

/// One frame of the context stack.
pub struct StateLevel {
    pub context: ContextId,
    pub prototype: Option<ContextId>,
    pub captures: Option<CaptureSnapshot>,
}

/// Keeps the parser's context stack between lines of parsing. Create one per
/// file and feed it the lines in order; it can be cloned to checkpoint a
/// position, and two states compare equal when their stacks agree frame by
/// frame (context references by arena index, snapshots by content).
pub struct ParseState {
    pub stack: Vec<StateLevel>,
    pub first_line: bool,
    /// Stack depths at which frames were pushed from a `with_prototype`
    /// match; prototypes below the latest such depth are not consulted.
    pub proto_starts: Vec<usize>,
}

/// Every recorded capture range is a well-formed range of the recorded line.
pub open spec fn snapshot_wf(c: CaptureSnapshot) -> bool {
    forall|i: int|
        0 <= i < c.regions@.len() ==> (#[trigger] c.regions@[i] matches Some(q) ==> q.0 <= q.1
            && q.1 <= c.line@.len())
}

pub open spec fn level_wf(l: StateLevel, n: int) -> bool {
    &&& l.context < n
    &&& (l.prototype matches Some(p) ==> p < n)
    &&& (l.captures matches Some(c) ==> snapshot_wf(c))
}

pub open spec fn levels_wf(s: Seq<StateLevel>, n: int) -> bool {
    forall|i: int| 0 <= i < s.len() ==> level_wf(#[trigger] s[i], n)
}

impl ParseState {
    /// The session invariant: a non-empty stack whose frames all point into
    /// the graph.
    pub open spec fn wf(&self, g: &ContextGraph) -> bool {
        &&& self.stack@.len() >= 1
        &&& levels_wf(self.stack@, g.cs().len() as int)
    }

    /// Creates a fresh session sitting on the syntax's start context.
    pub fn new(syntax: &ContextGraph) -> (r: ParseState)
        requires
            syntax.wf(),
        ensures
            r.wf(syntax),
            r.stack@.len() == 1,
            r.stack@[0].context == syntax.start,
            r.stack@[0].prototype is None,
            r.stack@[0].captures is None,
            r.first_line == true,
            r.proto_starts@.len() == 0,
    {
        let mut stack: Vec<StateLevel> = Vec::new();
        stack.push(StateLevel { context: syntax.start_context(), prototype: None, captures: None });
        ParseState { stack, first_line: true, proto_starts: Vec::new() }
    }
}

/// Context references are arena indices, so two references denote the same
/// context exactly when the indices are equal.
pub fn context_ptr_eq(a: &ContextId, b: &ContextId) -> (r: bool)
    ensures
        r == (a == b),
{
    *a == *b
}

fn clone_bytes(v: &Vec<u8>) -> (r: Vec<u8>)
    ensures
        r@ == v@,
{
    let mut r: Vec<u8> = Vec::new();
    let mut i: usize = 0;
    while i < v.len()
        invariant
            i <= v@.len(),
            r@ == v@.subrange(0, i as int),
        decreases v@.len() - i,
    {
        r.push(v[i]);
        proof {
            assert(r@ =~= v@.subrange(0, i + 1));
        }
        i = i + 1;
    }
    proof {
        assert(v@.subrange(0, v@.len() as int) =~= v@);
    }
    r
}

fn clone_regions(v: &Vec<Option<(usize, usize)>>) -> (r: Vec<Option<(usize, usize)>>)
    ensures
        r@ == v@,
{
    let mut r: Vec<Option<(usize, usize)>> = Vec::new();
    let mut i: usize = 0;
    while i < v.len()
        invariant
            i <= v@.len(),
            r@ == v@.subrange(0, i as int),
        decreases v@.len() - i,
    {
        r.push(v[i]);
        proof {
            assert(r@ =~= v@.subrange(0, i + 1));
        }
        i = i + 1;
    }
    proof {
        assert(v@.subrange(0, v@.len() as int) =~= v@);
    }
    r
}

/// A winning candidate of the match selector.
pub struct RegexMatch {
    pub regions: Vec<Option<(usize, usize)>>,
    pub context: ContextId,
    pub pat_index: usize,
    pub from_with_prototype: bool,
    pub would_loop: bool,
}

/// Regions as the selector hands them on: group 0 present and a well-formed
/// range of the line, every other present group a well-formed range too.
pub open spec fn regions_wf(regions: Seq<Option<(usize, usize)>>, linelen: int) -> bool {
    &&& regions.len() >= 1
    &&& (regions[0] matches Some(p) && p.0 <= p.1 && p.1 <= linelen)
    &&& forall|i: int|
        0 <= i < regions.len() ==> (#[trigger] regions[i] matches Some(q) ==> q.0 <= q.1 && q.1
            <= linelen)
}

/// The pattern a candidate points at.
pub open spec fn pat_of(cs: Seq<Context>, m: RegexMatch) -> MatchPattern {
    cs[m.context as int].entries@[m.pat_index as int]->Match_0
}

/// What the selector guarantees of any candidate it returns for a search
/// from `start`: a real pattern of the graph, well-formed regions whose
/// match begins at or after `start`, and the loop flag only on a
/// non-consuming pop.
pub open spec fn candidate_wf(cs: Seq<Context>, m: RegexMatch, linelen: int, start: int) -> bool {
    &&& pair_is_match(cs, (m.context, m.pat_index))
    &&& regions_wf(m.regions@, linelen)
    &&& start <= m.regions@[0]->Some_0.0
    &&& (m.would_loop ==> pat_of(cs, m).operation is Pop && m.regions@[0]->Some_0.1 == start)
}

/// Whether a frame for target `t` with prototype `proto` must carry a
/// capture snapshot.
pub open spec fn spec_uses_snapshot(cs: Seq<Context>, t: ContextId, proto: Option<ContextId>) -> bool {
    cs[t as int].uses_backrefs || (proto matches Some(w) && cs[w as int].uses_backrefs)
}

/// The frame that pushing target `t` builds.
pub open spec fn frame_matches(
    cs: Seq<Context>,
    lvl: StateLevel,
    t: ContextId,
    proto: Option<ContextId>,
    regions: Seq<Option<(usize, usize)>>,
    line: Seq<u8>,
) -> bool {
    &&& lvl.context == t
    &&& lvl.prototype == proto
    &&& if spec_uses_snapshot(cs, t, proto) {
        lvl.captures matches Some(c) && c.regions@ == regions && c.line@ == line
    } else {
        lvl.captures is None
    }
}

pub open spec fn frames_pushed(
    cs: Seq<Context>,
    s: Seq<StateLevel>,
    base: int,
    refs: Seq<ContextId>,
    wp: Option<ContextId>,
    regions: Seq<Option<(usize, usize)>>,
    line: Seq<u8>,
) -> bool {
    forall|j: int|
        0 <= j < refs.len() ==> frame_matches(
            cs,
            #[trigger] s[base + j],
            refs[j],
            if j == refs.len() - 1 {
                wp
            } else {
                Option::None
            },
            regions,
            line,
        )
}

/// How one stack action changes the stack: nothing, one frame popped, or
/// (for a set, after popping one frame) one new frame per target with the
/// pattern's `with_prototype` attached to the last.
pub open spec fn stack_after_op(
    cs: Seq<Context>,
    old_s: Seq<StateLevel>,
    new_s: Seq<StateLevel>,
    pat: MatchPattern,
    regions: Seq<Option<(usize, usize)>>,
    line: Seq<u8>,
) -> bool {
    match pat.operation {
        MatchOperation::NoOp => new_s == old_s,
        MatchOperation::Pop => new_s == old_s.drop_last(),
        MatchOperation::Push(refs) => {
            &&& new_s.len() == old_s.len() + refs@.len()
            &&& (forall|j: int| 0 <= j < old_s.len() ==> new_s[j] == old_s[j])
            &&& frames_pushed(cs, new_s, old_s.len() as int, refs@, pat.with_prototype, regions, line)
        },
        MatchOperation::SetTo(refs) => {
            &&& new_s.len() == old_s.len() - 1 + refs@.len()
            &&& (forall|j: int| 0 <= j < old_s.len() - 1 ==> new_s[j] == old_s[j])
            &&& frames_pushed(
                cs,
                new_s,
                old_s.len() - 1,
                refs@,
                pat.with_prototype,
                regions,
                line,
            )
        },
    }
}

impl ParseState {
    /// Applies a winning pattern's stack action. Returns whether the stack
    /// changed.
    fn perform_op(
        &mut self,
        g: &ContextGraph,
        line_bytes: &Vec<u8>,
        regions: &Vec<Option<(usize, usize)>>,
        pat: &MatchPattern,
    ) -> (changed: bool)
        requires
            g.wf(),
            old(self).wf(g),
            pattern_wf(*pat, g.cs()),
            regions_wf(regions@, line_bytes@.len() as int),
        ensures
            levels_wf(final(self).stack@, g.cs().len() as int),
            stack_after_op(
                g.cs(),
                old(self).stack@,
                final(self).stack@,
                *pat,
                regions@,
                line_bytes@,
            ),
            final(self).first_line == old(self).first_line,
            final(self).proto_starts@ == old(self).proto_starts@,
            changed == !(pat.operation is NoOp),
    {
        let refs: &Vec<ContextId> = match &pat.operation {
            MatchOperation::Push(r) => r,
            MatchOperation::SetTo(r) => {
                let _ = self.stack.pop();
                r
            },
            MatchOperation::Pop => {
                let _ = self.stack.pop();
                return true;
            },
            MatchOperation::NoOp => {
                return false;
            },
        };
        let ghost base = self.stack@.len() as int;
        let ghost base_stack = self.stack@;
        let n_refs = refs.len();
        let mut i: usize = 0;
        while i < n_refs
            invariant
                i <= n_refs,
                n_refs == refs@.len(),
                g.wf(),
                pattern_wf(*pat, g.cs()),
                (pat.operation matches MatchOperation::Push(r) && r@ == refs@) || (
                pat.operation matches MatchOperation::SetTo(r) && r@ == refs@),
                regions_wf(regions@, line_bytes@.len() as int),
                self.stack@.len() == base + i,
                base_stack.len() == base,
                self.first_line == old(self).first_line,
                self.proto_starts@ == old(self).proto_starts@,
                base_stack == (if pat.operation is Push {
                    old(self).stack@
                } else {
                    old(self).stack@.drop_last()
                }),
                old(self).stack@.len() >= 1,
                levels_wf(base_stack, g.cs().len() as int),
                forall|j: int| 0 <= j < base ==> self.stack@[j] == base_stack[j],
                levels_wf(self.stack@, g.cs().len() as int),
                forall|j: int|
                    0 <= j < i ==> frame_matches(
                        g.cs(),
                        #[trigger] self.stack@[base + j],
                        refs@[j],
                        if j == refs@.len() - 1 {
                            pat.with_prototype
                        } else {
                            Option::None
                        },
                        regions@,
                        line_bytes@,
                    ),
            decreases n_refs - i,
        {
            let t = refs[i];
            proof {
                assert(op_targets(pat.operation)[i as int] == t);
                assert(t < g.cs().len());
            }
            let proto: Option<ContextId> = if i == n_refs - 1 {
                pat.with_prototype
            } else {
                None
            };
            let uses = g.contexts[t].uses_backrefs || (match proto {
                Some(w) => g.contexts[w].uses_backrefs,
                None => false,
            });
            let caps: Option<CaptureSnapshot> = if uses {
                Some(
                    CaptureSnapshot {
                        regions: clone_regions(regions),
                        line: clone_bytes(line_bytes),
                    },
                )
            } else {
                None
            };
            self.stack.push(StateLevel { context: t, prototype: proto, captures: caps });
            i = i + 1;
        }
        proof {
            match &pat.operation {
                MatchOperation::Push(r) => {
                    assert(self.stack@.len() == old(self).stack@.len() + r@.len());
                    assert(forall|j: int|
                        0 <= j < old(self).stack@.len() ==> self.stack@[j] == old(
                            self,
                        ).stack@[j]);
                    assert(frames_pushed(
                        g.cs(),
                        self.stack@,
                        old(self).stack@.len() as int,
                        r@,
                        pat.with_prototype,
                        regions@,
                        line_bytes@,
                    ));
                },
                MatchOperation::SetTo(r) => {
                    assert(self.stack@.len() == old(self).stack@.len() - 1 + r@.len());
                    assert(forall|j: int|
                        0 <= j < old(self).stack@.len() - 1 ==> old(self).stack@.drop_last()[j]
                            == old(self).stack@[j]);
                    assert(forall|j: int|
                        0 <= j < old(self).stack@.len() - 1 ==> self.stack@[j] == old(
                            self,
                        ).stack@[j]);
                    assert(frames_pushed(
                        g.cs(),
                        self.stack@,
                        old(self).stack@.len() - 1,
                        r@,
                        pat.with_prototype,
                        regions@,
                        line_bytes@,
                    ));
                },
                _ => {},
            }
        }
        true
    }

    /// Emits a winning match's ops and applies its stack action. The level
    /// context is the top of the stack before the mutation, which may differ
    /// from the context the winning pattern lives in.
    fn exec_pattern(
        &mut self,
        g: &ContextGraph,
        line_bytes: &Vec<u8>,
        m: &RegexMatch,
        level_id: ContextId,
        ops: &mut Vec<(usize, ScopeStackOp)>,
    ) -> (changed: bool)
        requires
            g.wf(),
            old(self).wf(g),
            level_id < g.cs().len(),
            pair_is_match(g.cs(), (m.context, m.pat_index)),
            regions_wf(m.regions@, line_bytes@.len() as int),
        ensures
            levels_wf(final(self).stack@, g.cs().len() as int),
            final(self).first_line == old(self).first_line,
            final(self).proto_starts@ == old(self).proto_starts@,
            final(ops)@ == old(ops)@ + spec_match_ops(
                g.cs(),
                g.cs()[level_id as int],
                pat_of(g.cs(), *m),
                m.regions@,
                m.regions@[0]->Some_0.0,
                m.regions@[0]->Some_0.1,
            ),
            stack_after_op(
                g.cs(),
                old(self).stack@,
                final(self).stack@,
                pat_of(g.cs(), *m),
                m.regions@,
                line_bytes@,
            ),
            changed == !(pat_of(g.cs(), *m).operation is NoOp),
    {
        let (ms, me) = match m.regions[0] {
            Some(p) => p,
            None => vstd::pervasive::unreached(),
        };
        let pat: &MatchPattern = match &g.contexts[m.context].entries[m.pat_index] {
            ContextEntry::Match(p) => p,
            ContextEntry::Embed(_) => vstd::pervasive::unreached(),
        };
        proof {
            assert(context_wf(g.cs()[m.context as int], g.cs()));
            assert(entry_wf(g.cs()[m.context as int].entries@[m.pat_index as int], g.cs()));
        }
        emit_match_ops(g, level_id, pat, &m.regions, ms, me, ops);
        self.perform_op(g, line_bytes, &m.regions, pat)
    }
}

broadcast use vstd::std_specs::hash::group_hash_axioms;

/// The per-line search cache: pattern identity (context and entry index,
/// packed) to the remembered search outcome, `None` for "does not match
/// anywhere on this line".
pub type SearchCache = HashMap<u64, Option<Vec<Option<(usize, usize)>>>>;

/// Every remembered region set is well-formed for the current line.
pub open spec fn cache_wf(
    m: Map<u64, Option<Vec<Option<(usize, usize)>>>>,
    linelen: int,
) -> bool {
    forall|k: u64|
        m.contains_key(k) ==> ((#[trigger] m[k]) matches Some(v) ==> regions_wf(v@, linelen))
}

/// Capture regions, abstracted.
pub type ARegions = Seq<Option<(usize, usize)>>;

/// The cache, abstracted: pattern key to remembered outcome.
pub type ACache = Map<u64, Option<ARegions>>;

/// The cache's mathematical content.
pub open spec fn cache_view(m: Map<u64, Option<Vec<Option<(usize, usize)>>>>) -> ACache {
    Map::new(
        |k: u64| m.dom().contains(k),
        |k: u64|
            match m[k] {
                Some(v) => Some(v@),
                None => None,
            },
    )
}

/// A pattern's cache key: its context and entry indices, packed.
pub open spec fn spec_pat_key(pc: usize, pi: usize) -> u64 {
    ((pc as u64) << 32u64) | (pi as u64)
}

pub open spec fn deref_caps(c: Option<&CaptureSnapshot>) -> Option<CaptureSnapshot> {
    match c {
        Some(x) => Some(*x),
        None => None,
    }
}

/// What one cache-aware pattern search returns and leaves in the cache,
/// mirroring the memoization rules: a remembered miss stands; a remembered
/// match is reused while its start has not been passed; otherwise the engine
/// is consulted on the pattern's text (the back-reference-substituted text
/// when the pattern has placeholders and a snapshot is at hand), an empty
/// match with no stack action is discarded, and the outcome is remembered
/// unless a substituted text was used.
pub open spec fn spec_search(
    cs: Seq<Context>,
    pc: int,
    pi: int,
    caps: Option<CaptureSnapshot>,
    line: Seq<u8>,
    start: int,
    cache: ACache,
) -> (Option<ARegions>, ACache) {
    let k = spec_pat_key(pc as usize, pi as usize);
    let pat = cs[pc].entries@[pi]->Match_0;
    if cache.contains_key(k) && cache[k] is None {
        (None, cache)
    } else if cache.contains_key(k) && (cache[k] matches Some(v) && v[0] matches Some(p) && p.0
        >= start) {
        (Some(cache[k]->Some_0), cache)
    } else {
        let derived_used = pat.has_captures && caps is Some;
        let text = if derived_used {
            spec_substituted(pat.regex_str@, caps->Some_0.regions@, caps->Some_0.line@)
        } else {
            pat.regex_str@
        };
        if !compiles(text) {
            (None, cache)
        } else {
            match search_found(text, line, start) {
                Some(v) => if v.len() >= 1 && v[0] is Some {
                    let p0 = v[0]->Some_0;
                    let ds = !(pat.operation is NoOp && p0.0 == p0.1);
                    let cache2 = if !derived_used && ds {
                        cache.insert(k, Some(v))
                    } else {
                        cache
                    };
                    (if ds {
                        Some(v)
                    } else {
                        None
                    }, cache2)
                } else {
                    (None, cache)
                },
                None => (None, if !derived_used {
                    cache.insert(k, None)
                } else {
                    cache
                }),
            }
        }
    }
}

proof fn lemma_cache_view_insert(
    m: Map<u64, Option<Vec<Option<(usize, usize)>>>>,
    k: u64,
    v: Option<Vec<Option<(usize, usize)>>>,
)
    ensures
        cache_view(m.insert(k, v)) == cache_view(m).insert(
            k,
            match v {
                Some(w) => Some(w@),
                None => None,
            },
        ),
{
    assert(cache_view(m.insert(k, v)) =~= cache_view(m).insert(
        k,
        match v {
            Some(w) => Some(w@),
            None => None,
        },
    ));
}

/// Searches one pattern at or after `start`, through the per-line cache.
/// A remembered match is reused while its start has not been passed; a
/// pattern that cannot apply (its regex failed to compile, or its derived
/// regex does) reports no match; an empty match of a pattern with no stack
/// action is discarded.
fn search_in_pattern(
    g: &ContextGraph,
    line: &str,
    start: usize,
    pc: usize,
    pi: usize,
    captures: Option<&CaptureSnapshot>,
    cache: &mut SearchCache,
) -> (r: Option<Vec<Option<(usize, usize)>>>)
    requires
        g.wf(),
        pair_is_match(g.cs(), (pc, pi)),
        start <= line.spec_bytes().len(),
        cache_wf(old(cache)@, line.spec_bytes().len() as int),
        captures matches Some(c) ==> snapshot_wf(*c),
    ensures
        cache_wf(final(cache)@, line.spec_bytes().len() as int),
        r matches Some(v) ==> regions_wf(v@, line.spec_bytes().len() as int) && start <= v@[0]->Some_0.0,
        cache_view(final(cache)@) == spec_search(
            g.cs(),
            pc as int,
            pi as int,
            deref_caps(captures),
            line.spec_bytes(),
            start as int,
            cache_view(old(cache)@),
        ).1,
        (match r {
            Some(v) => spec_search(
                g.cs(),
                pc as int,
                pi as int,
                deref_caps(captures),
                line.spec_bytes(),
                start as int,
                cache_view(old(cache)@),
            ).0 == Some(v@),
            None => spec_search(
                g.cs(),
                pc as int,
                pi as int,
                deref_caps(captures),
                line.spec_bytes(),
                start as int,
                cache_view(old(cache)@),
            ).0 is None,
        }),
{
    let ghost cv0 = cache_view(old(cache)@);
    let ghost model = spec_search(
        g.cs(),
        pc as int,
        pi as int,
        deref_caps(captures),
        line.spec_bytes(),
        start as int,
        cv0,
    );
    let key: u64 = ((pc as u64) << 32u64) | (pi as u64);
    proof {
        assert(key == spec_pat_key(pc, pi));
    }
    match cache.get(&key) {
        Some(entry) => {
            match entry {
                None => {
                    proof {
                        assert(cache@.contains_key(key) && cache@[key] is None);
                        assert(cv0.contains_key(key) && cv0[key] is None);
                        assert(model.0 is None && model.1 == cv0);
                    }
                    return None;
                },
                Some(region) => {
                    proof {
                        assert(cache@.contains_key(key) && (cache@[key] matches Some(v) && v@
                            == region@));
                        assert(cv0.contains_key(key) && cv0[key] == Some(region@));
                        assert(region@[0] is Some);
                    }
                    match region[0] {
                        Some(p) => {
                            if p.0 >= start {
                                proof {
                                    assert(model.0 == Some(region@) && model.1 == cv0);
                                }
                                return Some(clone_regions(region));
                            }
                        },
                        None => {},
                    }
                    proof {
                        assert(!(cv0.contains_key(key) && cv0[key] is None));
                        assert(!(cv0.contains_key(key) && (cv0[key] matches Some(v) && (
                        v[0] matches Some(p) && p.0 >= start as int))));
                    }
                },
            }
        },
        None => {
            proof {
                assert(!cache@.contains_key(key));
                assert(!cv0.contains_key(key));
            }
        },
    }
    proof {
        assert(!(cv0.contains_key(key) && cv0[key] is None));
        assert(!(cv0.contains_key(key) && (cv0[key] matches Some(v) && (v[0] matches Some(p)
            && p.0 >= start as int))));
    }
    let pat: &MatchPattern = match &g.contexts[pc].entries[pi] {
        ContextEntry::Match(p) => p,
        ContextEntry::Embed(_) => vstd::pervasive::unreached(),
    };
    let used_derived = pat.has_captures && captures.is_some();
    let ghost text = if used_derived {
        spec_substituted(
            pat.regex_str@,
            deref_caps(captures)->Some_0.regions@,
            deref_caps(captures)->Some_0.line@,
        )
    } else {
        pat.regex_str@
    };
    let derived: Option<onig::Regex> = if pat.has_captures {
        match captures {
            Some(c) => {
                let subbed = substituted_pattern(&pat.regex_str, &c.regions, &c.line);
                proof {
                    assert(subbed@ == text);
                }
                crate::adapter::compile_pattern(&subbed)
            },
            None => None,
        }
    } else {
        None
    };
    if used_derived && derived.is_none() {
        // The derived pattern did not compile: treated as never matching.
        proof {
            assert(!compiles(text));
            assert(model.0 is None && model.1 == cv0);
        }
        return None;
    }
    proof {
        assert(used_derived ==> (derived is Some && compiles(text)));
        assert(derived is Some ==> used_derived);
    }
    let found = match &derived {
        Some(d) => {
            proof {
                assert(crate::adapter::regex_pattern(*d) == text);
            }
            search_pattern(d, line, start)
        },
        None => {
            match &g.compiled[pc][pi] {
                Some(b) => {
                    proof {
                        assert(crate::adapter::regex_pattern(*b) == text);
                        assert(compiles(text));
                    }
                    search_pattern(b, line, start)
                },
                None => {
                    // The pattern's regex failed to compile: never matches.
                    proof {
                        assert(!compiles(text));
                        assert(model.0 is None && model.1 == cv0);
                    }
                    return None;
                },
            }
        },
    };
    proof {
        assert(compiles(text));
        assert(match found {
            Some(v) => search_found(text, line.spec_bytes(), start as int) == Some(v@),
            None => search_found(text, line.spec_bytes(), start as int) is None,
        });
    }
    match found {
        Some(v) => {
            let (ms, me) = match v[0] {
                Some(p) => p,
                None => vstd::pervasive::unreached(),
            };
            let does_something = match pat.operation {
                MatchOperation::NoOp => ms != me,
                _ => true,
            };
            if derived.is_none() && does_something {
                let remembered = clone_regions(&v);
                cache.insert(key, Some(remembered));
                proof {
                    lemma_cache_view_insert(old(cache)@, key, Some(remembered));
                    assert(cache_view(cache@) == cv0.insert(key, Some(v@)));
                }
            }
            proof {
                if does_something {
                    assert(model.0 == Some(v@));
                } else {
                    assert(model.0 is None);
                    assert(model.1 == cv0);
                }
                assert(cache_view(cache@) == model.1);
            }
            if does_something {
                Some(v)
            } else {
                None
            }
        },
        None => {
            if derived.is_none() {
                cache.insert(key, None);
                proof {
                    lemma_cache_view_insert(old(cache)@, key, None);
                }
            }
            proof {
                assert(model.0 is None);
                assert(cache_view(cache@) == model.1);
            }
            None
        },
    }
}

/// The selector's abstract view of a candidate.
pub struct BestModel {
    pub regions: ARegions,
    pub context: int,
    pub pat_index: int,
    pub from_with_prototype: bool,
    pub would_loop: bool,
}

/// The selector's state while scanning: best start seen so far, the current
/// best candidate, whether that candidate is a looping pop, the cache, and
/// whether the early exit has fired.
pub struct SelState {
    pub min_start: int,
    pub best: Option<BestModel>,
    pub pop_would_loop: bool,
    pub cache: ACache,
    pub done: bool,
}

/// The abstraction of the selector's executable state.
pub open spec fn sel_of(
    min_start: usize,
    best: Option<RegexMatch>,
    pop_would_loop: bool,
    cache: ACache,
    done: bool,
) -> SelState {
    SelState {
        min_start: min_start as int,
        best: match best {
            Some(m) => Some(
                BestModel {
                    regions: m.regions@,
                    context: m.context as int,
                    pat_index: m.pat_index as int,
                    from_with_prototype: m.from_with_prototype,
                    would_loop: m.would_loop,
                },
            ),
            None => None,
        },
        pop_would_loop,
        cache,
        done,
    }
}

/// One pattern considered, per the selection rule: the earliest match wins,
/// a tie displaces only a looping pop, and a non-looping candidate matching
/// exactly at `start` ends the scan.
pub open spec fn spec_consider(
    cs: Seq<Context>,
    pc: int,
    pi: int,
    from_wp: bool,
    caps: Option<CaptureSnapshot>,
    line: Seq<u8>,
    start: int,
    check: bool,
    st: SelState,
) -> SelState {
    if st.done {
        st
    } else {
        let sr = spec_search(cs, pc, pi, caps, line, start, st.cache);
        match sr.0 {
            Some(v) => if v.len() >= 1 && v[0] is Some {
                let p0 = v[0]->Some_0;
                if (p0.0 as int) < st.min_start || ((p0.0 as int) == st.min_start
                    && st.pop_would_loop) {
                    let is_pop = cs[pc].entries@[pi]->Match_0.operation is Pop;
                    let wl = check && !((p0.1 as int) > start) && is_pop;
                    SelState {
                        min_start: p0.0 as int,
                        best: Some(
                            BestModel {
                                regions: v,
                                context: pc,
                                pat_index: pi,
                                from_with_prototype: from_wp,
                                would_loop: wl,
                            },
                        ),
                        pop_would_loop: wl,
                        cache: sr.1,
                        done: (p0.0 as int) == start && !wl,
                    }
                } else {
                    SelState {
                        min_start: st.min_start,
                        best: st.best,
                        pop_would_loop: st.pop_would_loop,
                        cache: sr.1,
                        done: st.done,
                    }
                }
            } else {
                SelState {
                    min_start: st.min_start,
                    best: st.best,
                    pop_would_loop: st.pop_would_loop,
                    cache: sr.1,
                    done: st.done,
                }
            },
            None => SelState {
                min_start: st.min_start,
                best: st.best,
                pop_would_loop: st.pop_would_loop,
                cache: sr.1,
                done: st.done,
            },
        }
    }
}

/// A context's flattened patterns considered in order, from entry `j` on.
pub open spec fn spec_scan_row(
    cs: Seq<Context>,
    row: Seq<(usize, usize)>,
    j: int,
    from_wp: bool,
    caps: Option<CaptureSnapshot>,
    line: Seq<u8>,
    start: int,
    check: bool,
    st: SelState,
) -> SelState
    decreases row.len() - j,
{
    if j < 0 || j >= row.len() {
        st
    } else {
        spec_scan_row(
            cs,
            row,
            j + 1,
            from_wp,
            caps,
            line,
            start,
            check,
            spec_consider(
                cs,
                row[j].0 as int,
                row[j].1 as int,
                from_wp,
                caps,
                line,
                start,
                check,
                st,
            ),
        )
    }
}

/// One context the selector visits, with its provenance and snapshot.
pub struct VisitItem {
    pub ctx: int,
    pub from_wp: bool,
    pub caps: Option<CaptureSnapshot>,
}

/// The inherited `with_prototype` frames from depth `lvl` up, bottom first.
pub open spec fn spec_proto_items(stack: Seq<StateLevel>, lvl: int) -> Seq<VisitItem>
    decreases stack.len() - lvl,
{
    if lvl < 0 || lvl >= stack.len() {
        Seq::empty()
    } else {
        (match stack[lvl].prototype {
            Some(p) => seq![VisitItem { ctx: p as int, from_wp: true, caps: stack[lvl].captures }],
            None => Seq::empty(),
        }) + spec_proto_items(stack, lvl + 1)
    }
}

/// Everything the selector visits, in order: the retained `with_prototype`
/// frames bottom to top, the top context's own prototype, then the top
/// context itself.
pub open spec fn spec_visit_items(
    cs: Seq<Context>,
    stack: Seq<StateLevel>,
    proto_start: int,
) -> Seq<VisitItem> {
    let top = stack.last();
    spec_proto_items(stack, proto_start) + (match cs[top.context as int].prototype {
        Some(p) => seq![VisitItem { ctx: p as int, from_wp: false, caps: None }],
        None => Seq::empty(),
    }) + seq![VisitItem { ctx: top.context as int, from_wp: false, caps: top.captures }]
}

pub open spec fn spec_scan_items(
    g: &ContextGraph,
    items: Seq<VisitItem>,
    line: Seq<u8>,
    start: int,
    check: bool,
    st: SelState,
) -> SelState
    decreases items.len(),
{
    if items.len() == 0 {
        st
    } else {
        spec_scan_items(
            g,
            items.drop_first(),
            line,
            start,
            check,
            spec_scan_row(
                g.cs(),
                g.flat@[items.first().ctx]@,
                0,
                items.first().from_wp,
                items.first().caps,
                line,
                start,
                check,
                st,
            ),
        )
    }
}

/// The whole selection: what `find_best_match` computes, as a function of
/// the stack, the retained-prototype floor, the line, the position, the
/// loop-check flag and the incoming cache.
pub open spec fn spec_select(
    g: &ContextGraph,
    stack: Seq<StateLevel>,
    proto_start: int,
    line: Seq<u8>,
    start: int,
    check: bool,
    cache: ACache,
) -> SelState {
    spec_scan_items(
        g,
        spec_visit_items(g.cs(), stack, proto_start),
        line,
        start,
        check,
        SelState {
            min_start: usize::MAX as int,
            best: None,
            pop_would_loop: false,
            cache,
            done: false,
        },
    )
}

/// A finished scan stays finished: later patterns change nothing.
proof fn lemma_scan_row_done(
    cs: Seq<Context>,
    row: Seq<(usize, usize)>,
    j: int,
    from_wp: bool,
    caps: Option<CaptureSnapshot>,
    line: Seq<u8>,
    start: int,
    check: bool,
    st: SelState,
)
    requires
        st.done,
    ensures
        spec_scan_row(cs, row, j, from_wp, caps, line, start, check, st) == st,
    decreases row.len() - j,
{
    if 0 <= j < row.len() {
        lemma_scan_row_done(cs, row, j + 1, from_wp, caps, line, start, check, st);
    }
}

proof fn lemma_scan_items_done(
    g: &ContextGraph,
    items: Seq<VisitItem>,
    line: Seq<u8>,
    start: int,
    check: bool,
    st: SelState,
)
    requires
        st.done,
    ensures
        spec_scan_items(g, items, line, start, check, st) == st,
    decreases items.len(),
{
    if items.len() > 0 {
        lemma_scan_row_done(
            g.cs(),
            g.flat@[items.first().ctx]@,
            0,
            items.first().from_wp,
            items.first().caps,
            line,
            start,
            check,
            st,
        );
        lemma_scan_items_done(g, items.drop_first(), line, start, check, st);
    }
}

/// Scanning a concatenation scans the first part, then the second.
proof fn lemma_scan_items_concat(
    g: &ContextGraph,
    a: Seq<VisitItem>,
    b: Seq<VisitItem>,
    line: Seq<u8>,
    start: int,
    check: bool,
    st: SelState,
)
    ensures
        spec_scan_items(g, a + b, line, start, check, st) == spec_scan_items(
            g,
            b,
            line,
            start,
            check,
            spec_scan_items(g, a, line, start, check, st),
        ),
    decreases a.len(),
{
    if a.len() == 0 {
        assert(a + b =~= b);
    } else {
        assert((a + b).first() == a.first());
        assert((a + b).drop_first() =~= a.drop_first() + b);
        lemma_scan_items_concat(
            g,
            a.drop_first(),
            b,
            line,
            start,
            check,
            spec_scan_row(
                g.cs(),
                g.flat@[a.first().ctx]@,
                0,
                a.first().from_wp,
                a.first().caps,
                line,
                start,
                check,
                st,
            ),
        );
    }
}

/// Walks one context's flattened pattern list, updating the current best
/// candidate exactly as `spec_scan_row` says. Returns true on the early
/// exit: a non-looping candidate matching exactly at `start` cannot be
/// beaten.
#[verifier::rlimit(60)]
fn scan_context(
    g: &ContextGraph,
    line: &str,
    start: usize,
    cache: &mut SearchCache,
    check_pop_loop: bool,
    ctx: ContextId,
    from_wp: bool,
    captures: Option<&CaptureSnapshot>,
    min_start: &mut usize,
    best: &mut Option<RegexMatch>,
    pop_would_loop: &mut bool,
) -> (early: bool)
    requires
        g.wf(),
        ctx < g.cs().len(),
        start <= line.spec_bytes().len(),
        cache_wf(old(cache)@, line.spec_bytes().len() as int),
        captures matches Some(c) ==> snapshot_wf(*c),
        *old(best) matches Some(m) ==> candidate_wf(
            g.cs(),
            m,
            line.spec_bytes().len() as int,
            start as int,
        ) && m.would_loop == *old(pop_would_loop) && (m.would_loop ==> check_pop_loop),
    ensures
        cache_wf(final(cache)@, line.spec_bytes().len() as int),
        *final(best) matches Some(m) ==> candidate_wf(
            g.cs(),
            m,
            line.spec_bytes().len() as int,
            start as int,
        ) && m.would_loop == *final(pop_would_loop) && (m.would_loop ==> check_pop_loop),
        *final(best) is None ==> *old(best) is None,
        early ==> *final(best) is Some,
        sel_of(
            *final(min_start),
            *final(best),
            *final(pop_would_loop),
            cache_view(final(cache)@),
            early,
        ) == spec_scan_row(
            g.cs(),
            g.flat@[ctx as int]@,
            0,
            from_wp,
            deref_caps(captures),
            line.spec_bytes(),
            start as int,
            check_pop_loop,
            sel_of(
                *old(min_start),
                *old(best),
                *old(pop_would_loop),
                cache_view(old(cache)@),
                false,
            ),
        ),
{
    let ghost row = g.flat@[ctx as int]@;
    let ghost dc = deref_caps(captures);
    let ghost st_in = sel_of(
        *old(min_start),
        *old(best),
        *old(pop_would_loop),
        cache_view(old(cache)@),
        false,
    );
    let row_len = g.flat[ctx].len();
    let mut idx: usize = 0;
    while idx < row_len
        invariant
            g.wf(),
            ctx < g.cs().len(),
            row == g.flat@[ctx as int]@,
            row_len == row.len(),
            idx <= row_len,
            dc == deref_caps(captures),
            st_in == sel_of(
                *old(min_start),
                *old(best),
                *old(pop_would_loop),
                cache_view(old(cache)@),
                false,
            ),
            start <= line.spec_bytes().len(),
            cache_wf(cache@, line.spec_bytes().len() as int),
            captures matches Some(c) ==> snapshot_wf(*c),
            (*best) matches Some(m) ==> candidate_wf(
                g.cs(),
                m,
                line.spec_bytes().len() as int,
                start as int,
            ) && m.would_loop == *pop_would_loop && (m.would_loop ==> check_pop_loop),
            (*best) is None ==> *old(best) is None,
            spec_scan_row(
                g.cs(),
                row,
                0,
                from_wp,
                dc,
                line.spec_bytes(),
                start as int,
                check_pop_loop,
                st_in,
            ) == spec_scan_row(
                g.cs(),
                row,
                idx as int,
                from_wp,
                dc,
                line.spec_bytes(),
                start as int,
                check_pop_loop,
                sel_of(*min_start, *best, *pop_would_loop, cache_view(cache@), false),
            ),
        decreases row_len - idx,
    {
        let ghost pre_sel = sel_of(*min_start, *best, *pop_would_loop, cache_view(cache@), false);
        let pr = g.flat[ctx][idx];
        let (pc, pi) = pr;
        proof {
            assert(pair_is_match(g.cs(), g.flat@[ctx as int]@[idx as int]));
            assert(row[idx as int] == (pc, pi));
        }
        let found = search_in_pattern(g, line, start, pc, pi, captures, cache);
        proof {
            assert(spec_search(
                g.cs(),
                pc as int,
                pi as int,
                dc,
                line.spec_bytes(),
                start as int,
                pre_sel.cache,
            ).1 == cache_view(cache@));
        }
        match found {
            Some(region) => {
                let ghost vreg = region@;
                let (ms, me) = match region[0] {
                    Some(p) => p,
                    None => vstd::pervasive::unreached(),
                };
                if ms < *min_start || (ms == *min_start && *pop_would_loop) {
                    *min_start = ms;
                    let consuming = me > start;
                    let is_pop = match &g.contexts[pc].entries[pi] {
                        ContextEntry::Match(p) => matches!(p.operation, MatchOperation::Pop),
                        ContextEntry::Embed(_) => vstd::pervasive::unreached(),
                    };
                    let wl = check_pop_loop && !consuming && is_pop;
                    *pop_would_loop = wl;
                    *best = Some(
                        RegexMatch {
                            regions: region,
                            context: pc,
                            pat_index: pi,
                            from_with_prototype: from_wp,
                            would_loop: wl,
                        },
                    );
                    if ms == start && !wl {
                        proof {
                            let new_sel = sel_of(
                                *min_start,
                                *best,
                                *pop_would_loop,
                                cache_view(cache@),
                                true,
                            );
                            assert(spec_consider(
                                g.cs(),
                                pc as int,
                                pi as int,
                                from_wp,
                                dc,
                                line.spec_bytes(),
                                start as int,
                                check_pop_loop,
                                pre_sel,
                            ) == new_sel);
                            assert(spec_scan_row(
                                g.cs(),
                                row,
                                idx as int,
                                from_wp,
                                dc,
                                line.spec_bytes(),
                                start as int,
                                check_pop_loop,
                                pre_sel,
                            ) == spec_scan_row(
                                g.cs(),
                                row,
                                idx + 1,
                                from_wp,
                                dc,
                                line.spec_bytes(),
                                start as int,
                                check_pop_loop,
                                new_sel,
                            ));
                            lemma_scan_row_done(
                                g.cs(),
                                row,
                                idx + 1,
                                from_wp,
                                dc,
                                line.spec_bytes(),
                                start as int,
                                check_pop_loop,
                                new_sel,
                            );
                        }
                        return true;
                    }
                    proof {
                        assert(spec_consider(
                            g.cs(),
                            pc as int,
                            pi as int,
                            from_wp,
                            dc,
                            line.spec_bytes(),
                            start as int,
                            check_pop_loop,
                            pre_sel,
                        ) == sel_of(*min_start, *best, *pop_would_loop, cache_view(cache@), false));
                    }
                } else {
                    proof {
                        assert(spec_consider(
                            g.cs(),
                            pc as int,
                            pi as int,
                            from_wp,
                            dc,
                            line.spec_bytes(),
                            start as int,
                            check_pop_loop,
                            pre_sel,
                        ) == sel_of(*min_start, *best, *pop_would_loop, cache_view(cache@), false));
                    }
                }
            },
            None => {
                proof {
                    assert(spec_consider(
                        g.cs(),
                        pc as int,
                        pi as int,
                        from_wp,
                        dc,
                        line.spec_bytes(),
                        start as int,
                        check_pop_loop,
                        pre_sel,
                    ) == sel_of(*min_start, *best, *pop_would_loop, cache_view(cache@), false));
                }
            },
        }
        proof {
            assert(spec_scan_row(
                g.cs(),
                row,
                idx as int,
                from_wp,
                dc,
                line.spec_bytes(),
                start as int,
                check_pop_loop,
                pre_sel,
            ) == spec_scan_row(
                g.cs(),
                row,
                idx + 1,
                from_wp,
                dc,
                line.spec_bytes(),
                start as int,
                check_pop_loop,
                sel_of(*min_start, *best, *pop_would_loop, cache_view(cache@), false),
            ));
        }
        idx = idx + 1;
    }
    proof {
        assert(spec_scan_row(
            g.cs(),
            row,
            idx as int,
            from_wp,
            dc,
            line.spec_bytes(),
            start as int,
            check_pop_loop,
            sel_of(*min_start, *best, *pop_would_loop, cache_view(cache@), false),
        ) == sel_of(*min_start, *best, *pop_would_loop, cache_view(cache@), false));
    }
    false
}

/// The final visit item: the top context itself.
pub open spec fn top_items_def(stack: Seq<StateLevel>) -> Seq<VisitItem> {
    seq![
        VisitItem {
            ctx: stack.last().context as int,
            from_wp: false,
            caps: stack.last().captures,
        },
    ]
}

/// The depth below which inherited `with_prototype` frames are not applied.
pub open spec fn spec_proto_floor(ps: Seq<usize>) -> int {
    if ps.len() > 0 {
        ps.last() as int
    } else {
        0
    }
}

impl ParseState {
    /// Finds the best match at or after `start`, exactly as `spec_select`
    /// says: the earliest does-something match over the inherited
    /// `with_prototype` frames (bottom to top, from the latest retained
    /// depth), then the top context's prototype, then the top context
    /// itself, ties going to the pattern visited first - except that a
    /// looping pop gives way to any candidate at the same position.
    #[verifier::rlimit(60)]
    fn find_best_match(
        &self,
        g: &ContextGraph,
        line: &str,
        start: usize,
        cache: &mut SearchCache,
        check_pop_loop: bool,
    ) -> (r: Option<RegexMatch>)
        requires
            g.wf(),
            self.wf(g),
            start <= line.spec_bytes().len(),
            cache_wf(old(cache)@, line.spec_bytes().len() as int),
            self.proto_starts@.len() > 0 ==> self.proto_starts@.last() < self.stack@.len(),
        ensures
            cache_wf(final(cache)@, line.spec_bytes().len() as int),
            r matches Some(m) ==> candidate_wf(
                g.cs(),
                m,
                line.spec_bytes().len() as int,
                start as int,
            ) && (m.would_loop ==> check_pop_loop),
            cache_view(final(cache)@) == spec_select(
                g,
                self.stack@,
                spec_proto_floor(self.proto_starts@),
                line.spec_bytes(),
                start as int,
                check_pop_loop,
                cache_view(old(cache)@),
            ).cache,
            (match r {
                Some(m) => spec_select(
                    g,
                    self.stack@,
                    spec_proto_floor(self.proto_starts@),
                    line.spec_bytes(),
                    start as int,
                    check_pop_loop,
                    cache_view(old(cache)@),
                ).best == Some(
                    BestModel {
                        regions: m.regions@,
                        context: m.context as int,
                        pat_index: m.pat_index as int,
                        from_with_prototype: m.from_with_prototype,
                        would_loop: m.would_loop,
                    },
                ),
                None => spec_select(
                    g,
                    self.stack@,
                    spec_proto_floor(self.proto_starts@),
                    line.spec_bytes(),
                    start as int,
                    check_pop_loop,
                    cache_view(old(cache)@),
                ).best is None,
            }),
    {
        let mut min_start: usize = usize::MAX;
        let mut best: Option<RegexMatch> = None;
        let mut pop_would_loop: bool = false;

        let proto_start: usize = match self.proto_starts.last() {
            Some(v) => *v,
            None => 0,
        };
        proof {
            assert(proto_start as int == spec_proto_floor(self.proto_starts@));
        }
        let top = self.stack.len() - 1;
        let cur_ctx = self.stack[top].context;

        let ghost lb = line.spec_bytes();
        let ghost sel0 = SelState {
            min_start: usize::MAX as int,
            best: None,
            pop_would_loop: false,
            cache: cache_view(old(cache)@),
            done: false,
        };
        let ghost items = spec_visit_items(g.cs(), self.stack@, proto_start as int);
        let ghost tail = (match g.cs()[self.stack@.last().context as int].prototype {
            Some(p) => seq![VisitItem { ctx: p as int, from_wp: false, caps: None }],
            None => Seq::<VisitItem>::empty(),
        }) + seq![
            VisitItem {
                ctx: self.stack@.last().context as int,
                from_wp: false,
                caps: self.stack@.last().captures,
            },
        ];
        proof {
            assert(items =~= spec_proto_items(self.stack@, proto_start as int) + tail);
            assert(sel_of(min_start, best, pop_would_loop, cache_view(cache@), false) == sel0);
        }

        // Inherited `with_prototype` frames, bottom to top.
        let mut lvl: usize = proto_start;
        while lvl < self.stack.len()
            invariant
                g.wf(),
                self.wf(g),
                start <= lb.len(),
                lb == line.spec_bytes(),
                cache_wf(cache@, lb.len() as int),
                proto_start <= lvl,
                items == spec_visit_items(g.cs(), self.stack@, proto_start as int),
                proto_start as int == spec_proto_floor(self.proto_starts@),
                sel0 == (SelState {
                    min_start: usize::MAX as int,
                    best: None,
                    pop_would_loop: false,
                    cache: cache_view(old(cache)@),
                    done: false,
                }),
                tail == (match g.cs()[self.stack@.last().context as int].prototype {
                    Some(p) => seq![VisitItem { ctx: p as int, from_wp: false, caps: None }],
                    None => Seq::<VisitItem>::empty(),
                }) + seq![
                    VisitItem {
                        ctx: self.stack@.last().context as int,
                        from_wp: false,
                        caps: self.stack@.last().captures,
                    },
                ],
                best matches Some(m) ==> candidate_wf(g.cs(), m, lb.len() as int, start as int)
                    && m.would_loop == pop_would_loop && (m.would_loop ==> check_pop_loop),
                spec_scan_items(g, items, lb, start as int, check_pop_loop, sel0)
                    == spec_scan_items(
                    g,
                    spec_proto_items(self.stack@, lvl as int) + tail,
                    lb,
                    start as int,
                    check_pop_loop,
                    sel_of(min_start, best, pop_would_loop, cache_view(cache@), false),
                ),
            decreases self.stack@.len() - lvl,
        {
            let ghost cur_sel = sel_of(min_start, best, pop_would_loop, cache_view(cache@), false);
            let ghost pending = spec_proto_items(self.stack@, lvl as int) + tail;
            let frame = &self.stack[lvl];
            match &frame.prototype {
                Some(proto_id) => {
                    let ghost item = VisitItem {
                        ctx: *proto_id as int,
                        from_wp: true,
                        caps: self.stack@[lvl as int].captures,
                    };
                    proof {
                        assert(spec_proto_items(self.stack@, lvl as int) == seq![item]
                            + spec_proto_items(self.stack@, lvl + 1));
                        assert(pending =~= seq![item] + (spec_proto_items(self.stack@, lvl + 1)
                            + tail));
                        assert((seq![item] + (spec_proto_items(self.stack@, lvl + 1)
                            + tail)).first() == item);
                        assert((seq![item] + (spec_proto_items(self.stack@, lvl + 1)
                            + tail)).drop_first() =~= spec_proto_items(self.stack@, lvl + 1)
                            + tail);
                    }
                    let caps: Option<&CaptureSnapshot> = frame.captures.as_ref();
                    proof {
                        assert(deref_caps(caps) == item.caps);
                    }
                    if scan_context(
                        g,
                        line,
                        start,
                        cache,
                        check_pop_loop,
                        *proto_id,
                        true,
                        caps,
                        &mut min_start,
                        &mut best,
                        &mut pop_would_loop,
                    ) {
                        proof {
                            let done_sel = sel_of(
                                min_start,
                                best,
                                pop_would_loop,
                                cache_view(cache@),
                                true,
                            );
                            assert(spec_scan_items(g, pending, lb, start as int, check_pop_loop, cur_sel)
                                == spec_scan_items(
                                g,
                                spec_proto_items(self.stack@, lvl + 1) + tail,
                                lb,
                                start as int,
                                check_pop_loop,
                                done_sel,
                            ));
                            lemma_scan_items_done(
                                g,
                                spec_proto_items(self.stack@, lvl + 1) + tail,
                                lb,
                                start as int,
                                check_pop_loop,
                                done_sel,
                            );
                            assert(spec_scan_items(g, items, lb, start as int, check_pop_loop, sel0)
                                == done_sel);
                        }
                        return best;
                    }
                    proof {
                        assert(spec_scan_items(g, pending, lb, start as int, check_pop_loop, cur_sel)
                            == spec_scan_items(
                            g,
                            spec_proto_items(self.stack@, lvl + 1) + tail,
                            lb,
                            start as int,
                            check_pop_loop,
                            sel_of(min_start, best, pop_would_loop, cache_view(cache@), false),
                        ));
                    }
                },
                None => {
                    proof {
                        assert(spec_proto_items(self.stack@, lvl as int)
                            =~= spec_proto_items(self.stack@, lvl + 1));
                    }
                },
            }
            lvl = lvl + 1;
        }
        proof {
            assert(spec_proto_items(self.stack@, lvl as int) =~= Seq::<VisitItem>::empty());
            assert(Seq::<VisitItem>::empty() + tail =~= tail);
            assert(spec_scan_items(g, items, lb, start as int, check_pop_loop, sel0)
                == spec_scan_items(
                g,
                tail,
                lb,
                start as int,
                check_pop_loop,
                sel_of(min_start, best, pop_would_loop, cache_view(cache@), false),
            ));
        }

        // The top context's own prototype.
        match g.contexts[cur_ctx].prototype {
            Some(proto_id) => {
                let ghost item = VisitItem { ctx: proto_id as int, from_wp: false, caps: None };
                proof {
                    assert(tail.first() == item);
                    assert(tail.drop_first() =~= seq![
                        VisitItem {
                            ctx: self.stack@.last().context as int,
                            from_wp: false,
                            caps: self.stack@.last().captures,
                        },
                    ]);
                }
                let ghost pre2 = sel_of(min_start, best, pop_would_loop, cache_view(cache@), false);
                if scan_context(
                    g,
                    line,
                    start,
                    cache,
                    check_pop_loop,
                    proto_id,
                    false,
                    None,
                    &mut min_start,
                    &mut best,
                    &mut pop_would_loop,
                ) {
                    proof {
                        let done_sel = sel_of(
                            min_start,
                            best,
                            pop_would_loop,
                            cache_view(cache@),
                            true,
                        );
                        assert(spec_scan_items(g, tail, lb, start as int, check_pop_loop, pre2)
                            == spec_scan_items(
                            g,
                            tail.drop_first(),
                            lb,
                            start as int,
                            check_pop_loop,
                            done_sel,
                        ));
                        lemma_scan_items_done(
                            g,
                            tail.drop_first(),
                            lb,
                            start as int,
                            check_pop_loop,
                            done_sel,
                        );
                        assert(spec_scan_items(g, items, lb, start as int, check_pop_loop, sel0)
                            == done_sel);
                    }
                    return best;
                }
                proof {
                    assert(spec_scan_items(g, tail, lb, start as int, check_pop_loop, pre2)
                        == spec_scan_items(
                        g,
                        tail.drop_first(),
                        lb,
                        start as int,
                        check_pop_loop,
                        sel_of(min_start, best, pop_would_loop, cache_view(cache@), false),
                    ));
                    assert(spec_scan_items(g, items, lb, start as int, check_pop_loop, sel0)
                        == spec_scan_items(
                        g,
                        tail.drop_first(),
                        lb,
                        start as int,
                        check_pop_loop,
                        sel_of(min_start, best, pop_would_loop, cache_view(cache@), false),
                    ));
                    assert(tail.drop_first() =~= top_items_def(self.stack@));
                }
            },
            None => {
                proof {
                    assert(tail =~= top_items_def(self.stack@));
                }
            },
        }

        // The top context itself.
        let ghost top_items = top_items_def(self.stack@);
        proof {
            assert(top_items.first() == VisitItem {
                ctx: self.stack@.last().context as int,
                from_wp: false,
                caps: self.stack@.last().captures,
            });
            assert(top_items.drop_first() =~= Seq::<VisitItem>::empty());
        }
        let caps: Option<&CaptureSnapshot> = self.stack[top].captures.as_ref();
        proof {
            assert(deref_caps(caps) == self.stack@.last().captures);
        }
        let ghost pre3 = sel_of(min_start, best, pop_would_loop, cache_view(cache@), false);
        let early3 = scan_context(
            g,
            line,
            start,
            cache,
            check_pop_loop,
            cur_ctx,
            false,
            caps,
            &mut min_start,
            &mut best,
            &mut pop_would_loop,
        );
        proof {
            let fin = sel_of(min_start, best, pop_would_loop, cache_view(cache@), early3);
            assert(spec_scan_items(g, top_items, lb, start as int, check_pop_loop, pre3)
                == spec_scan_items(
                g,
                Seq::<VisitItem>::empty(),
                lb,
                start as int,
                check_pop_loop,
                fin,
            ));
            assert(spec_scan_items(g, items, lb, start as int, check_pop_loop, sel0) == fin);
        }
        best
    }
}

fn should_trim(ps: &Vec<usize>, n: usize) -> (b: bool)
    ensures
        b == (ps@.len() > 0 && ps@.last() >= n),
{
    match ps.last() {
        Some(v) => *v >= n,
        None => false,
    }
}

/// `proto_starts` with entries at or beyond the stack depth dropped.
pub open spec fn spec_trimmed(ps: Seq<usize>, n: int) -> Seq<usize>
    decreases ps.len(),
{
    if ps.len() > 0 && ps.last() >= n {
        spec_trimmed(ps.drop_last(), n)
    } else {
        ps
    }
}

/// Whether the loop guard fires: the last non-consuming push sits at this
/// position with the stack at the depth it produced.
pub open spec fn spec_check_flag(guard: Option<(usize, usize)>, start: int, depth: int) -> bool {
    match guard {
        Some(p) => p.0 == start && p.1 == depth - 1,
        None => false,
    }
}

/// Everything one driver step does, as a function of the incoming state and
/// the engine: trim the retained-prototype floor, run the selector, then
/// either stop (nothing matched, or a looping pop at the end of the line),
/// advance one byte past a looping pop, or carry the winner out - emitting
/// exactly its operations, applying its stack action, arming the loop guard
/// on a non-consuming push, and recording a `with_prototype` frame's depth.
#[verifier::opaque]
pub open spec fn step_post(
    g: &ContextGraph,
    line: Seq<u8>,
    stack0: Seq<StateLevel>,
    proto0: Seq<usize>,
    guard0: Option<(usize, usize)>,
    start0: int,
    cache0: ACache,
    stack1: Seq<StateLevel>,
    proto1: Seq<usize>,
    guard1: Option<(usize, usize)>,
    start1: int,
    cache1: ACache,
    ops_new: Seq<(usize, ScopeStackOp)>,
    cont: bool,
) -> bool {
    let trimmed = spec_trimmed(proto0, stack0.len() as int);
    let check = spec_check_flag(guard0, start0, stack0.len() as int);
    let sel = spec_select(g, stack0, spec_proto_floor(trimmed), line, start0, check, cache0);
    &&& cache1 == sel.cache
    &&& match sel.best {
        None => {
            &&& cont == false
            &&& stack1 == stack0
            &&& proto1 == trimmed
            &&& guard1 == guard0
            &&& start1 == start0
            &&& ops_new == Seq::<(usize, ScopeStackOp)>::empty()
        },
        Some(b) => {
            if b.would_loop {
                &&& cont == (start0 != line.len())
                &&& stack1 == stack0
                &&& proto1 == trimmed
                &&& guard1 == guard0
                &&& start1 == (if start0 == line.len() {
                    start0
                } else {
                    start0 + 1
                })
                &&& ops_new == Seq::<(usize, ScopeStackOp)>::empty()
            } else {
                let ms = b.regions[0]->Some_0.0;
                let me = b.regions[0]->Some_0.1;
                let pat = g.cs()[b.context].entries@[b.pat_index]->Match_0;
                &&& cont == true
                &&& start1 == me as int
                &&& guard1 == (if !((me as int) > start0) && pat.operation is Push {
                    Some((me, stack0.len() as usize))
                } else {
                    guard0
                })
                &&& proto1 == trimmed + (if b.from_with_prototype {
                    seq![stack0.len() as usize]
                } else {
                    Seq::<usize>::empty()
                })
                &&& ops_new == spec_match_ops(
                    g.cs(),
                    g.cs()[stack0.last().context as int],
                    pat,
                    b.regions,
                    ms,
                    me,
                )
                &&& stack_after_op(g.cs(), stack0, stack1, pat, b.regions, line)
            }
        },
    }
}


/// One recorded driver step: the state it started from, the state it left,
/// the operations it appended, and whether parsing went on.
pub struct StepRec {
    pub stack0: Seq<StateLevel>,
    pub stack1: Seq<StateLevel>,
    pub proto0: Seq<usize>,
    pub proto1: Seq<usize>,
    pub guard0: Option<(usize, usize)>,
    pub guard1: Option<(usize, usize)>,
    pub start0: int,
    pub start1: int,
    pub cache0: ACache,
    pub cache1: ACache,
    pub ops_new: Seq<(usize, ScopeStackOp)>,
    pub cont: bool,
}

pub open spec fn step_rec_ok(g: &ContextGraph, line: Seq<u8>, r: StepRec) -> bool {
    step_post(
        g,
        line,
        r.stack0,
        r.proto0,
        r.guard0,
        r.start0,
        r.cache0,
        r.stack1,
        r.proto1,
        r.guard1,
        r.start1,
        r.cache1,
        r.ops_new,
        r.cont,
    )
}

/// The floor re-push: an emptied stack gets the start context back before
/// the next step.
pub open spec fn floor_fix(g: &ContextGraph, s: Seq<StateLevel>) -> Seq<StateLevel> {
    if s.len() == 0 {
        seq![StateLevel { context: g.start, prototype: None, captures: None }]
    } else {
        s
    }
}

/// A chained run of driver steps: each step is a real step, picks up where
/// the previous one left off (with the stack re-floored), and only the last
/// one may have stopped.
pub open spec fn trace_chained(g: &ContextGraph, line: Seq<u8>, tr: Seq<StepRec>) -> bool {
    &&& forall|i: int| 0 <= i < tr.len() ==> step_rec_ok(g, line, #[trigger] tr[i])
    &&& forall|i: int|
        0 < i < tr.len() ==> (#[trigger] tr[i]).stack0 == floor_fix(g, tr[i - 1].stack1)
            && tr[i].proto0 == tr[i - 1].proto1 && tr[i].guard0 == tr[i - 1].guard1
            && tr[i].start0 == tr[i - 1].start1 && tr[i].cache0 == tr[i - 1].cache1 && tr[i
            - 1].cont == true
}

/// All operations a trace appended, in order.
pub open spec fn trace_ops(tr: Seq<StepRec>) -> Seq<(usize, ScopeStackOp)>
    decreases tr.len(),
{
    if tr.len() == 0 {
        Seq::empty()
    } else {
        trace_ops(tr.drop_last()) + tr.last().ops_new
    }
}

/// The step budget of one line: the line length (plus slack) times the
/// graph's per-position step allowance, saturating.
pub open spec fn spec_budget(allowance: usize, linelen: int) -> int {
    let s = if linelen + 2 <= usize::MAX {
        linelen + 2
    } else {
        usize::MAX as int
    };
    if s * allowance <= usize::MAX {
        s * allowance
    } else {
        usize::MAX as int
    }
}

/// The first-line quirk: the bottom context's first meta content scope is
/// pushed at offset zero, once per session.
pub open spec fn spec_quirk_ops(g: &ContextGraph, st: ParseState) -> Seq<(usize, ScopeStackOp)> {
    if st.first_line && g.cs()[st.stack@.last().context as int].meta_content_scope@.len() > 0 {
        seq![
            (
                0usize,
                ScopeStackOp::Push(
                    g.cs()[st.stack@.last().context as int].meta_content_scope@[0],
                ),
            ),
        ]
    } else {
        Seq::empty()
    }
}

/// What `parse_line` promises of its whole run: some chain of driver steps,
/// starting from the given session with position zero, a fresh cache and an
/// idle guard, produced exactly the returned operations (after the
/// first-line quirk op) and the final state, and it stopped only because a
/// step found nothing more - or the step budget ran out.
pub open spec fn line_trace_ok(
    g: &ContextGraph,
    line: Seq<u8>,
    tr: Seq<StepRec>,
    pre: ParseState,
    post_stack: Seq<StateLevel>,
    post_proto: Seq<usize>,
    ops: Seq<(usize, ScopeStackOp)>,
) -> bool {
    &&& trace_chained(g, line, tr)
    &&& tr.len() >= 1
    &&& tr[0].stack0 == pre.stack@
    &&& tr[0].proto0 == pre.proto_starts@
    &&& tr[0].guard0 is None
    &&& tr[0].start0 == 0
    &&& tr[0].cache0 == Map::<u64, Option<ARegions>>::empty()
    &&& ops == spec_quirk_ops(g, pre) + trace_ops(tr)
    &&& post_stack == floor_fix(g, tr.last().stack1)
    &&& post_proto == tr.last().proto1
    &&& (tr.last().cont == false || tr.len() == spec_budget(g.step_allowance, line.len() as int))
}


/// Law: a whole line's operations come out in non-decreasing offset order
/// whenever every step's appended operations are ordered and lie between
/// that step's start and end positions. For a step that carries a match out,
/// `laws::lemma_match_ops_sorted` gives exactly that, provided the engine
/// reported the match at or after the searched position (which the search
/// wrapper states) and every reported capture group lies within the whole
/// match's span - the one situation outside spec reach is an engine-reported
/// group beyond the match span, as a look-around group can be.
pub proof fn lemma_trace_ops_ordered(tr: Seq<StepRec>)
    requires
        forall|i: int| 0 < i < tr.len() ==> (#[trigger] tr[i]).start0 == tr[i - 1].start1,
        forall|i: int| 0 <= i < tr.len() ==> (#[trigger] tr[i]).start0 <= tr[i].start1,
        forall|i: int|
            0 <= i < tr.len() ==> crate::laws::offsets_nondecreasing((#[trigger] tr[i]).ops_new)
                && crate::laws::offsets_within(tr[i].ops_new, tr[i].start0, tr[i].start1),
    ensures
        crate::laws::offsets_nondecreasing(trace_ops(tr)),
        tr.len() > 0 ==> crate::laws::offsets_within(
            trace_ops(tr),
            tr[0].start0,
            tr.last().start1,
        ),
        tr.len() > 0 ==> tr[0].start0 <= tr.last().start1,
    decreases tr.len(),
{
    if tr.len() == 0 {
        assert(trace_ops(tr) =~= Seq::<(usize, ScopeStackOp)>::empty());
    } else {
        let pre = tr.drop_last();
        let last = tr.last();
        assert(forall|i: int| 0 <= i < pre.len() ==> #[trigger] pre[i] == tr[i]);
        lemma_trace_ops_ordered(pre);
        if pre.len() == 0 {
            assert(trace_ops(pre) =~= Seq::<(usize, ScopeStackOp)>::empty());
            assert(trace_ops(tr) =~= last.ops_new);
        } else {
            assert(last.start0 == pre.last().start1);
            crate::laws::lemma_sorted_append(
                trace_ops(pre),
                last.ops_new,
                last.start0,
                last.start1,
            );
            assert forall|k: int|
                0 <= k < trace_ops(tr).len() implies tr[0].start0 <= (
            #[trigger] trace_ops(tr)[k]).0 <= last.start1 by {
                if k < trace_ops(pre).len() {
                    assert(trace_ops(tr)[k] == trace_ops(pre)[k]);
                } else {
                    assert(trace_ops(tr)[k] == last.ops_new[k - trace_ops(pre).len()]);
                }
            }
        }
    }
}

/// Extending a chained trace by one fitting step keeps it chained.
proof fn lemma_trace_push(g: &ContextGraph, line: Seq<u8>, tr: Seq<StepRec>, rec: StepRec)
    requires
        trace_chained(g, line, tr),
        step_rec_ok(g, line, rec),
        tr.len() > 0 ==> rec.stack0 == floor_fix(g, tr.last().stack1) && rec.proto0
            == tr.last().proto1 && rec.guard0 == tr.last().guard1 && rec.start0
            == tr.last().start1 && rec.cache0 == tr.last().cache1 && tr.last().cont == true,
    ensures
        trace_chained(g, line, tr.push(rec)),
        trace_ops(tr.push(rec)) == trace_ops(tr) + rec.ops_new,
        tr.push(rec).last() == rec,
        tr.push(rec).len() == tr.len() + 1,
        forall|i: int| 0 <= i < tr.len() ==> #[trigger] tr.push(rec)[i] == tr[i],
{
    let tr2 = tr.push(rec);
    assert(tr2.drop_last() =~= tr);
    assert(tr2.last() == rec);
    assert forall|i: int| 0 <= i < tr2.len() implies step_rec_ok(g, line, #[trigger] tr2[i]) by {
        if i < tr2.len() - 1 {
            assert(tr2[i] == tr[i]);
        }
    }
    assert forall|i: int|
        0 < i < tr2.len() implies (#[trigger] tr2[i]).stack0 == floor_fix(g, tr2[i - 1].stack1)
            && tr2[i].proto0 == tr2[i - 1].proto1 && tr2[i].guard0 == tr2[i - 1].guard1
            && tr2[i].start0 == tr2[i - 1].start1 && tr2[i].cache0 == tr2[i - 1].cache1 && tr2[i
            - 1].cont == true by {
        if i < tr2.len() - 1 {
            assert(tr2[i] == tr[i]);
            assert(tr2[i - 1] == tr[i - 1]);
        } else {
            assert(tr2[i] == rec);
            if i > 0 {
                assert(tr2[i - 1] == tr[i - 1]);
            }
        }
    }
}

impl ParseState {
    /// One step of the line driver: pick the best match and carry it out,
    /// exactly as `step_post` says. Returns false when the line is
    /// exhausted. A looping pop advances one byte instead of matching, or
    /// ends the line when at its end.
    #[verifier::rlimit(60)]
    fn parse_next_token(
        &mut self,
        g: &ContextGraph,
        line: &str,
        line_bytes: &Vec<u8>,
        start: &mut usize,
        cache: &mut SearchCache,
        guard: &mut Option<(usize, usize)>,
        ops: &mut Vec<(usize, ScopeStackOp)>,
    ) -> (cont: bool)
        requires
            g.wf(),
            old(self).wf(g),
            line_bytes@ == line.spec_bytes(),
            *old(start) <= line_bytes@.len(),
            cache_wf(old(cache)@, line_bytes@.len() as int),
        ensures
            levels_wf(final(self).stack@, g.cs().len() as int),
            final(self).first_line == old(self).first_line,
            cache_wf(final(cache)@, line_bytes@.len() as int),
            *old(start) <= *final(start) <= line_bytes@.len(),
            final(ops)@.len() >= old(ops)@.len(),
            final(ops)@.subrange(0, old(ops)@.len() as int) == old(ops)@,
            forall|j: int|
                old(ops)@.len() <= j < final(ops)@.len() ==> (#[trigger] final(ops)@[j]).0
                    <= line_bytes@.len(),
            !cont ==> final(ops)@ == old(ops)@ && *final(start) == *old(start)
                && final(self).stack@ == old(self).stack@,
            step_post(
                g,
                line_bytes@,
                old(self).stack@,
                old(self).proto_starts@,
                *old(guard),
                *old(start) as int,
                cache_view(old(cache)@),
                final(self).stack@,
                final(self).proto_starts@,
                *final(guard),
                *final(start) as int,
                cache_view(final(cache)@),
                final(ops)@.skip(old(ops)@.len() as int),
                cont,
            ),
    {
        let ghost lb = line_bytes@;
        let check_pop_loop = match *guard {
            Some((p, d)) => p == *start && d == self.stack.len() - 1,
            None => false,
        };
        proof {
            assert(check_pop_loop == spec_check_flag(
                *guard,
                *start as int,
                old(self).stack@.len() as int,
            ));
        }

        while should_trim(&self.proto_starts, self.stack.len())
            invariant
                self.stack@ == old(self).stack@,
                self.first_line == old(self).first_line,
                spec_trimmed(old(self).proto_starts@, old(self).stack@.len() as int)
                    == spec_trimmed(self.proto_starts@, old(self).stack@.len() as int),
            decreases self.proto_starts@.len(),
        {
            let _ = self.proto_starts.pop();
        }
        proof {
            assert(self.proto_starts@ == spec_trimmed(
                old(self).proto_starts@,
                old(self).stack@.len() as int,
            ));
        }
        let ghost trimmed = self.proto_starts@;
        let ghost sel = spec_select(
            g,
            old(self).stack@,
            spec_proto_floor(trimmed),
            lb,
            *old(start) as int,
            check_pop_loop,
            cache_view(old(cache)@),
        );

        let best = self.find_best_match(g, line, *start, cache, check_pop_loop);

        match best {
            Some(m) => {
                if m.would_loop {
                    if *start == line_bytes.len() {
                        proof {
                            assert(ops@.subrange(0, ops@.len() as int) =~= ops@);
                            assert(ops@.skip(ops@.len() as int) =~= Seq::<(
                                usize,
                                ScopeStackOp,
                            )>::empty());
                            assert(sel.best matches Some(b) && b.would_loop);
                            reveal(step_post);
                            assert(step_post(
                                g,
                                lb,
                                old(self).stack@,
                                old(self).proto_starts@,
                                *old(guard),
                                *old(start) as int,
                                cache_view(old(cache)@),
                                self.stack@,
                                self.proto_starts@,
                                *guard,
                                *start as int,
                                cache_view(cache@),
                                ops@.skip(ops@.len() as int),
                                false,
                            ));
                        }
                        return false;
                    }
                    *start = *start + 1;
                    proof {
                        assert(ops@.subrange(0, ops@.len() as int) =~= ops@);
                        assert(ops@.skip(ops@.len() as int) =~= Seq::<(usize, ScopeStackOp)>::empty());
                        assert(sel.best matches Some(b) && b.would_loop);
                        reveal(step_post);
                        assert(step_post(
                            g,
                            lb,
                            old(self).stack@,
                            old(self).proto_starts@,
                            *old(guard),
                            *old(start) as int,
                            cache_view(old(cache)@),
                            self.stack@,
                            self.proto_starts@,
                            *guard,
                            *start as int,
                            cache_view(cache@),
                            ops@.skip(ops@.len() as int),
                            true,
                        ));
                    }
                    return true;
                }
                let me_ = match m.regions[0] {
                    Some(p) => p.1,
                    None => vstd::pervasive::unreached(),
                };
                let consuming = me_ > *start;
                if !consuming {
                    let is_push = match &g.contexts[m.context].entries[m.pat_index] {
                        ContextEntry::Match(p) => matches!(p.operation, MatchOperation::Push(_)),
                        ContextEntry::Embed(_) => vstd::pervasive::unreached(),
                    };
                    if is_push {
                        *guard = Some((me_, self.stack.len()));
                    }
                }
                *start = me_;
                if m.from_with_prototype {
                    let depth = self.stack.len();
                    self.proto_starts.push(depth);
                }
                let level_id = self.stack[self.stack.len() - 1].context;
                let ghost pre_ops = ops@;
                let _ = self.exec_pattern(g, line_bytes, &m, level_id, ops);
                proof {
                    assert(ops@.subrange(0, pre_ops.len() as int) =~= pre_ops);
                    assert(ops@.skip(pre_ops.len() as int) =~= spec_match_ops(
                        g.cs(),
                        g.cs()[level_id as int],
                        pat_of(g.cs(), m),
                        m.regions@,
                        m.regions@[0]->Some_0.0,
                        m.regions@[0]->Some_0.1,
                    ));
                    crate::laws::lemma_match_ops_le(
                        g.cs(),
                        g.cs()[level_id as int],
                        pat_of(g.cs(), m),
                        m.regions@,
                        m.regions@[0]->Some_0.0,
                        m.regions@[0]->Some_0.1,
                        line_bytes@.len() as int,
                    );
                    assert(sel.best matches Some(b) && b.regions == m.regions@);
                    assert(pre_ops == old(ops)@);
                    assert(self.proto_starts@ == trimmed + (if m.from_with_prototype {
                        seq![old(self).stack@.len() as usize]
                    } else {
                        Seq::<usize>::empty()
                    }));
                    reveal(step_post);
                    assert(step_post(
                        g,
                        lb,
                        old(self).stack@,
                        old(self).proto_starts@,
                        *old(guard),
                        *old(start) as int,
                        cache_view(old(cache)@),
                        self.stack@,
                        self.proto_starts@,
                        *guard,
                        *start as int,
                        cache_view(cache@),
                        ops@.skip(old(ops)@.len() as int),
                        true,
                    ));
                }
                true
            },
            None => {
                proof {
                    assert(ops@.subrange(0, ops@.len() as int) =~= ops@);
                    assert(ops@.skip(ops@.len() as int) =~= Seq::<(usize, ScopeStackOp)>::empty());
                    assert(sel.best is None);
                    reveal(step_post);
                    assert(step_post(
                        g,
                        lb,
                        old(self).stack@,
                        old(self).proto_starts@,
                        *old(guard),
                        *old(start) as int,
                        cache_view(old(cache)@),
                        self.stack@,
                        self.proto_starts@,
                        *guard,
                        *start as int,
                        cache_view(cache@),
                        ops@.skip(ops@.len() as int),
                        false,
                    ));
                }
                false
            },
        }
    }

    /// Parses one line and returns the scope-stack operations it produces,
    /// ordered by the byte offset they apply at: a witnessed chain of driver
    /// steps, each per `step_post`, that ends only when a step found nothing
    /// more (or a looping pop stood at the end of the line), or when the
    /// step budget ran out. On the very first line, if the bottom context
    /// carries a meta content scope, its first entry is pushed at offset
    /// zero before anything else. Should the floor frame ever be popped, the
    /// start context is silently pushed back, so a session survives a graph
    /// whose rules pop past the bottom. The budget, generous in the line
    /// length and the graph size, makes every parse terminate; a graph whose
    /// rules get nowhere (for example a context that keeps pushing itself
    /// without consuming input) is cut off when the budget runs out.
    #[verifier::rlimit(100)]
    pub fn parse_line(&mut self, g: &ContextGraph, line: &str) -> (ops: Vec<(usize, ScopeStackOp)>)
        requires
            g.wf(),
            old(self).wf(g),
        ensures
            final(self).wf(g),
            final(self).first_line == false,
            forall|j: int|
                0 <= j < ops@.len() ==> (#[trigger] ops@[j]).0 <= line.spec_bytes().len(),
            old(self).first_line && g.cs()[old(self).stack@.last().context as int].meta_content_scope@.len() > 0
                ==> ops@.len() >= 1 && ops@[0] == (
                0usize,
                ScopeStackOp::Push(
                    g.cs()[old(self).stack@.last().context as int].meta_content_scope@[0],
                ),
            ),
            exists|tr: Seq<StepRec>|
                #[trigger] line_trace_ok(
                    g,
                    line.spec_bytes(),
                    tr,
                    *old(self),
                    final(self).stack@,
                    final(self).proto_starts@,
                    ops@,
                ),
    {
        let mut start: usize = 0;
        let mut ops: Vec<(usize, ScopeStackOp)> = Vec::new();
        let ghost quirk = self.first_line && g.cs()[self.stack@.last().context as int].meta_content_scope@.len() > 0;
        if self.first_line {
            let top = self.stack.len() - 1;
            let ctx_id = self.stack[top].context;
            if g.contexts[ctx_id].meta_content_scope.len() > 0 {
                ops.push((0, ScopeStackOp::Push(g.contexts[ctx_id].meta_content_scope[0])));
            }
            self.first_line = false;
        }
        proof {
            assert(ops@ =~= spec_quirk_ops(g, *old(self)));
        }

        let bs = line.as_bytes();
        let mut line_bytes: Vec<u8> = Vec::new();
        let mut bi: usize = 0;
        while bi < bs.len()
            invariant
                bi <= bs@.len(),
                bs@ == line.spec_bytes(),
                line_bytes@ == bs@.subrange(0, bi as int),
            decreases bs@.len() - bi,
        {
            line_bytes.push(bs[bi]);
            proof {
                assert(line_bytes@ =~= bs@.subrange(0, bi + 1));
            }
            bi = bi + 1;
        }
        proof {
            assert(bs@.subrange(0, bs@.len() as int) =~= bs@);
        }
        let ghost lb = line_bytes@;

        let mut cache: SearchCache = HashMap::new();
        let mut guard: Option<(usize, usize)> = None;
        let sat = line_bytes.len().saturating_add(2);
        let mut fuel: usize = match sat.checked_mul(g.step_allowance) {
            Some(b) => b,
            None => usize::MAX,
        };
        proof {
            assert(fuel as int == spec_budget(g.step_allowance, lb.len() as int));
            assert(sat >= 2);
            assert(sat * g.step_allowance >= 1) by (nonlinear_arith)
                requires
                    sat >= 1,
                    g.step_allowance >= 1,
            ;
            assert(fuel >= 1);
            assert(cache_view(cache@) =~= Map::<u64, Option<ARegions>>::empty());
        }
        let ghost budget0 = fuel as int;
        let ghost mut trace: Seq<StepRec> = Seq::empty();
        let mut stopped: bool = false;
        while fuel > 0 && !stopped
            invariant
                g.wf(),
                levels_wf(self.stack@, g.cs().len() as int),
                self.first_line == false,
                lb == line.spec_bytes(),
                line_bytes@ == lb,
                start <= lb.len(),
                cache_wf(cache@, lb.len() as int),
                old(self).stack@.len() >= 1,
                budget0 == spec_budget(g.step_allowance, lb.len() as int),
                budget0 >= 1,
                trace.len() == budget0 - fuel,
                trace_chained(g, lb, trace),
                quirk ==> ops@.len() >= 1 && ops@[0] == (
                    0usize,
                    ScopeStackOp::Push(
                        g.cs()[old(self).stack@.last().context as int].meta_content_scope@[0],
                    ),
                ),
                forall|j: int|
                    0 <= j < ops@.len() ==> (#[trigger] ops@[j]).0 <= lb.len(),
                trace.len() == 0 ==> self.stack@ == old(self).stack@ && self.proto_starts@ == old(
                    self,
                ).proto_starts@ && guard is None && start == 0 && cache_view(cache@) == Map::<
                    u64,
                    Option<ARegions>,
                >::empty() && ops@ == spec_quirk_ops(g, *old(self)) && !stopped,
                trace.len() > 0 ==> trace[0].stack0 == old(self).stack@ && trace[0].proto0 == old(
                    self,
                ).proto_starts@ && trace[0].guard0 is None && trace[0].start0 == 0
                    && trace[0].cache0 == Map::<u64, Option<ARegions>>::empty()
                    && self.stack@ == trace.last().stack1 && self.proto_starts@
                    == trace.last().proto1 && guard == trace.last().guard1 && start as int
                    == trace.last().start1 && cache_view(cache@) == trace.last().cache1 && ops@
                    == spec_quirk_ops(g, *old(self)) + trace_ops(trace),
                stopped ==> trace.len() > 0 && trace.last().cont == false,
                !stopped && trace.len() > 0 ==> trace.last().cont == true,
            decreases fuel,
        {
            fuel = fuel - 1;
            let ghost pre_raw = self.stack@;
            if self.stack.len() == 0 {
                self.stack.push(
                    StateLevel { context: g.start_context(), prototype: None, captures: None },
                );
            }
            proof {
                assert(self.stack@ == floor_fix(g, pre_raw));
            }
            let ghost s0 = self.stack@;
            let ghost p0 = self.proto_starts@;
            let ghost g0 = guard;
            let ghost st0 = start as int;
            let ghost c0 = cache_view(cache@);
            let ghost ops_pre = ops@;
            let cont = self.parse_next_token(
                g,
                line,
                &line_bytes,
                &mut start,
                &mut cache,
                &mut guard,
                &mut ops,
            );
            let ghost rec = StepRec {
                stack0: s0,
                stack1: self.stack@,
                proto0: p0,
                proto1: self.proto_starts@,
                guard0: g0,
                guard1: guard,
                start0: st0,
                start1: start as int,
                cache0: c0,
                cache1: cache_view(cache@),
                ops_new: ops@.skip(ops_pre.len() as int),
                cont,
            };
            proof {
                assert(step_rec_ok(g, lb, rec));
                assert(ops@.subrange(0, ops_pre.len() as int) == ops_pre);
                assert(ops@ =~= ops_pre + ops@.skip(ops_pre.len() as int));
                let old_trace = trace;
                lemma_trace_push(g, lb, trace, rec);
                trace = trace.push(rec);
                if old_trace.len() == 0 {
                    assert(pre_raw == old(self).stack@);
                    assert(s0 == old(self).stack@);
                    assert(trace[0] == rec);
                    assert(trace_ops(old_trace) == Seq::<(usize, ScopeStackOp)>::empty());
                } else {
                    assert(trace[0] == old_trace[0]);
                }
                assert(ops_pre + rec.ops_new =~= spec_quirk_ops(g, *old(self)) + trace_ops(
                    trace,
                ));
                assert(ops@ == spec_quirk_ops(g, *old(self)) + trace_ops(trace));
                if quirk {
                    assert(ops@.subrange(0, ops_pre.len() as int)[0] == ops@[0]);
                }
            }
            if !cont {
                stopped = true;
            }
        }
        proof {
            assert(trace.len() >= 1);
        }
        let ghost pre_final = self.stack@;
        if self.stack.len() == 0 {
            self.stack.push(
                StateLevel { context: g.start_context(), prototype: None, captures: None },
            );
        }
        proof {
            assert(self.stack@ == floor_fix(g, pre_final));
            assert(self.stack@ == floor_fix(g, trace.last().stack1));
            assert(trace.last().cont == false || trace.len() == budget0);
            assert(line_trace_ok(
                g,
                lb,
                trace,
                *old(self),
                self.stack@,
                self.proto_starts@,
                ops@,
            ));
        }
        ops
    }
}

/// Structural equality of snapshots: same capture ranges over the same line.
pub open spec fn snapshot_eqv(a: CaptureSnapshot, b: CaptureSnapshot) -> bool {
    a.regions@ == b.regions@ && a.line@ == b.line@
}

/// Frame equality: same context and prototype references (reference
/// identity is index identity in the arena), snapshots equal structurally.
pub open spec fn level_eqv(a: StateLevel, b: StateLevel) -> bool {
    &&& a.context == b.context
    &&& a.prototype == b.prototype
    &&& match (a.captures, b.captures) {
        (Option::Some(x), Option::Some(y)) => snapshot_eqv(x, y),
        (Option::None, Option::None) => true,
        _ => false,
    }
}

pub open spec fn state_eqv(a: ParseState, b: ParseState) -> bool {
    &&& a.first_line == b.first_line
    &&& a.proto_starts@ == b.proto_starts@
    &&& a.stack@.len() == b.stack@.len()
    &&& forall|i: int| 0 <= i < a.stack@.len() ==> level_eqv(#[trigger] a.stack@[i], b.stack@[i])
}

fn bytes_eq(a: &Vec<u8>, b: &Vec<u8>) -> (r: bool)
    ensures
        r == (a@ == b@),
{
    if a.len() != b.len() {
        proof {
            assert(a@ != b@);
        }
        return false;
    }
    let mut i: usize = 0;
    while i < a.len()
        invariant
            i <= a@.len(),
            a@.len() == b@.len(),
            forall|m: int| 0 <= m < i ==> a@[m] == b@[m],
        decreases a@.len() - i,
    {
        if a[i] != b[i] {
            proof {
                assert(a@[i as int] != b@[i as int]);
            }
            return false;
        }
        i = i + 1;
    }
    proof {
        assert(a@ =~= b@);
    }
    true
}

fn regions_eq(a: &Vec<Option<(usize, usize)>>, b: &Vec<Option<(usize, usize)>>) -> (r: bool)
    ensures
        r == (a@ == b@),
{
    if a.len() != b.len() {
        proof {
            assert(a@ != b@);
        }
        return false;
    }
    let mut i: usize = 0;
    while i < a.len()
        invariant
            i <= a@.len(),
            a@.len() == b@.len(),
            forall|m: int| 0 <= m < i ==> a@[m] == b@[m],
        decreases a@.len() - i,
    {
        let same = match (a[i], b[i]) {
            (Some(p), Some(q)) => p.0 == q.0 && p.1 == q.1,
            (None, None) => true,
            _ => false,
        };
        if !same {
            proof {
                assert(a@[i as int] != b@[i as int]);
            }
            return false;
        }
        i = i + 1;
    }
    proof {
        assert(a@ =~= b@);
    }
    true
}

fn usizes_eq(a: &Vec<usize>, b: &Vec<usize>) -> (r: bool)
    ensures
        r == (a@ == b@),
{
    if a.len() != b.len() {
        proof {
            assert(a@ != b@);
        }
        return false;
    }
    let mut i: usize = 0;
    while i < a.len()
        invariant
            i <= a@.len(),
            a@.len() == b@.len(),
            forall|m: int| 0 <= m < i ==> a@[m] == b@[m],
        decreases a@.len() - i,
    {
        if a[i] != b[i] {
            proof {
                assert(a@[i as int] != b@[i as int]);
            }
            return false;
        }
        i = i + 1;
    }
    proof {
        assert(a@ =~= b@);
    }
    true
}

impl PartialEq for CaptureSnapshot {
    fn eq(&self, other: &Self) -> (r: bool) {
        bytes_eq(&self.line, &other.line) && regions_eq(&self.regions, &other.regions)
    }
}

impl vstd::std_specs::cmp::PartialEqSpecImpl for CaptureSnapshot {
    open spec fn obeys_eq_spec() -> bool {
        true
    }

    open spec fn eq_spec(&self, other: &Self) -> bool {
        snapshot_eqv(*self, *other)
    }
}

impl PartialEq for StateLevel {
    fn eq(&self, other: &Self) -> (r: bool) {
        let ctx_same = context_ptr_eq(&self.context, &other.context);
        let proto_same = match (&self.prototype, &other.prototype) {
            (Some(a), Some(b)) => context_ptr_eq(a, b),
            (None, None) => true,
            _ => false,
        };
        let caps_same = match (&self.captures, &other.captures) {
            (Some(a), Some(b)) => a == b,
            (None, None) => true,
            _ => false,
        };
        ctx_same && proto_same && caps_same
    }
}

impl vstd::std_specs::cmp::PartialEqSpecImpl for StateLevel {
    open spec fn obeys_eq_spec() -> bool {
        true
    }

    open spec fn eq_spec(&self, other: &Self) -> bool {
        level_eqv(*self, *other)
    }
}

impl PartialEq for ParseState {
    fn eq(&self, other: &Self) -> (r: bool) {
        if self.first_line != other.first_line {
            return false;
        }
        if !usizes_eq(&self.proto_starts, &other.proto_starts) {
            return false;
        }
        if self.stack.len() != other.stack.len() {
            return false;
        }
        let mut i: usize = 0;
        while i < self.stack.len()
            invariant
                i <= self.stack@.len(),
                self.stack@.len() == other.stack@.len(),
                forall|m: int|
                    0 <= m < i ==> level_eqv(#[trigger] self.stack@[m], other.stack@[m]),
            decreases self.stack@.len() - i,
        {
            if !(self.stack[i] == other.stack[i]) {
                return false;
            }
            i = i + 1;
        }
        true
    }
}

impl vstd::std_specs::cmp::PartialEqSpecImpl for ParseState {
    open spec fn obeys_eq_spec() -> bool {
        true
    }

    open spec fn eq_spec(&self, other: &Self) -> bool {
        state_eqv(*self, *other)
    }
}

impl Clone for CaptureSnapshot {
    /// A clone carries the same capture ranges and the same line copy.
    fn clone(&self) -> (r: Self)
        ensures
            snapshot_eqv(r, *self),
    {
        CaptureSnapshot { regions: clone_regions(&self.regions), line: clone_bytes(&self.line) }
    }
}

impl Clone for StateLevel {
    /// A clone is an equal frame.
    fn clone(&self) -> (r: Self)
        ensures
            level_eqv(r, *self),
    {
        StateLevel {
            context: self.context,
            prototype: self.prototype,
            captures: match &self.captures {
                Some(c) => Some(c.clone()),
                None => None,
            },
        }
    }
}

impl Clone for ParseState {
    /// A clone is an equal session: parsing may continue on either with the
    /// same outcome.
    fn clone(&self) -> (r: Self)
        ensures
            state_eqv(r, *self),
    {
        let mut stack: Vec<StateLevel> = Vec::new();
        let mut i: usize = 0;
        while i < self.stack.len()
            invariant
                i <= self.stack@.len(),
                stack@.len() == i,
                forall|m: int| 0 <= m < i ==> level_eqv(#[trigger] stack@[m], self.stack@[m]),
            decreases self.stack@.len() - i,
        {
            stack.push(self.stack[i].clone());
            i = i + 1;
        }
        let mut proto_starts: Vec<usize> = Vec::new();
        let mut j: usize = 0;
        while j < self.proto_starts.len()
            invariant
                j <= self.proto_starts@.len(),
                proto_starts@ == self.proto_starts@.subrange(0, j as int),
            decreases self.proto_starts@.len() - j,
        {
            proto_starts.push(self.proto_starts[j]);
            proof {
                assert(proto_starts@ =~= self.proto_starts@.subrange(0, j + 1));
            }
            j = j + 1;
        }
        proof {
            assert(self.proto_starts@.subrange(0, self.proto_starts@.len() as int)
                =~= self.proto_starts@);
        }
        ParseState { stack, first_line: self.first_line, proto_starts }
    }
}

} // verus!
