use syntax_parser::graph::{Context, ContextEntry, ContextGraph, ContextId, MatchOperation, MatchPattern};
use syntax_parser::parser::ParseState;
use syntax_parser::scope::{ClearAmount, Scope, ScopeStackOp};

struct Names {
    v: Vec<String>,
}

impl Names {
    fn new() -> Names {
        Names { v: Vec::new() }
    }
    fn scope(&mut self, name: &str) -> Scope {
        if let Some(i) = self.v.iter().position(|n| n == name) {
            Scope { id: i as u64 }
        } else {
            self.v.push(name.to_string());
            Scope { id: (self.v.len() - 1) as u64 }
        }
    }
    fn name(&self, s: Scope) -> &str {
        &self.v[s.id as usize]
    }
}

struct SyntaxBuilder {
    names: Vec<String>,
    contexts: Vec<Context>,
}

impl SyntaxBuilder {
    fn new() -> SyntaxBuilder {
        SyntaxBuilder { names: Vec::new(), contexts: Vec::new() }
    }
    fn ctx(&mut self, name: &str) -> ContextId {
        if let Some(i) = self.names.iter().position(|n| n == name) {
            i
        } else {
            self.names.push(name.to_string());
            self.contexts.push(Context {
                entries: vec![],
                meta_scope: vec![],
                meta_content_scope: vec![],
                clear_scopes: None,
                prototype: None,
                uses_backrefs: false,
            });
            self.names.len() - 1
        }
    }
    /// Wires the synthetic start context (carrying the top-level scope as its
    /// meta content scope, and a rule that pushes `main` whenever it is on
    /// top) and optionally gives every user context the named prototype.
    fn finish(mut self, top: Scope, proto: Option<&str>) -> ContextGraph {
        let main = self.ctx("main");
        let start = self.ctx("__start");
        self.contexts[start].meta_content_scope = vec![top];
        self.contexts[start].entries = vec![pat("", vec![], MatchOperation::Push(vec![main]))];
        if let Some(pn) = proto {
            let p = self
                .names
                .iter()
                .position(|n| n == pn)
                .expect("prototype context not declared");
            for (i, ctx) in self.contexts.iter_mut().enumerate() {
                if i != p && i != start {
                    ctx.prototype = Some(p);
                }
            }
        }
        ContextGraph::build(self.contexts, start).expect("graph should build")
    }
}

fn pat(regex: &str, scope: Vec<Scope>, op: MatchOperation) -> ContextEntry {
    ContextEntry::Match(MatchPattern {
        regex_str: regex.as_bytes().to_vec(),
        has_captures: false,
        scope,
        captures: None,
        operation: op,
        with_prototype: None,
    })
}

struct ScopeApplier {
    scopes: Vec<Scope>,
    cleared: Vec<Vec<Scope>>,
}

impl ScopeApplier {
    fn new() -> ScopeApplier {
        ScopeApplier { scopes: vec![], cleared: vec![] }
    }
    fn apply(&mut self, op: &ScopeStackOp) {
        match op {
            ScopeStackOp::Push(s) => self.scopes.push(*s),
            ScopeStackOp::Pop(n) => {
                for _ in 0..*n {
                    self.scopes.pop();
                }
            }
            ScopeStackOp::Clear(amount) => {
                let cleared = match amount {
                    ClearAmount::TopN(n) => {
                        let to_leave = self.scopes.len() - (*n).min(self.scopes.len());
                        self.scopes.split_off(to_leave)
                    }
                    ClearAmount::All => std::mem::take(&mut self.scopes),
                };
                self.cleared.push(cleared);
            }
            ScopeStackOp::Restore => {
                if let Some(cs) = self.cleared.pop() {
                    for s in cs {
                        self.scopes.push(s);
                    }
                }
            }
        }
    }
    fn render(&self, names: &Names) -> String {
        self.scopes
            .iter()
            .map(|s| format!("<{}>", names.name(*s)))
            .collect::<Vec<_>>()
            .join(", ")
    }
}

/// Parses the line (once with a trailing newline, once without) with a fresh
/// session and checks that each expected scope stack shows up at least once.
fn expect_stacks(
    line_without_newline: &str,
    expect: &[&str],
    build: &dyn Fn(bool, &mut Names) -> ContextGraph,
) {
    for &with_newline in &[true, false] {
        let mut names = Names::new();
        let g = build(with_newline, &mut names);
        let line = if with_newline {
            format!("{}\n", line_without_newline)
        } else {
            line_without_newline.to_string()
        };
        let mut state = ParseState::new(&g);
        let ops = state.parse_line(&g, &line);
        let mut stack = ScopeApplier::new();
        let mut met: Vec<bool> = vec![false; expect.len()];
        for (_, op) in ops.iter() {
            stack.apply(op);
            let s = stack.render(&names);
            for (k, e) in expect.iter().enumerate() {
                if s.contains(e) {
                    met[k] = true;
                }
            }
        }
        for (k, e) in expect.iter().enumerate() {
            assert!(met[k], "expected scope stack '{}' missing", e);
        }
    }
}

#[test]
fn can_parse_prototype_that_pops_main() {
    let build = |_nl: bool, names: &mut Names| {
        let good = names.scope("test.good");
        let mut b = SyntaxBuilder::new();
        let proto = b.ctx("prototype");
        let main = b.ctx("main");
        b.contexts[proto].entries = vec![pat("(?=!)", vec![], MatchOperation::Pop)];
        b.contexts[main].entries = vec![pat("foo", vec![good], MatchOperation::NoOp)];
        b.finish(names.scope("source.test"), Some("prototype"))
    };
    expect_stacks("foo!", &["<source.test>, <test.good>"], &build);
}

#[test]
fn can_parse_syntax_with_newline_in_character_class() {
    let build = |nl: bool, names: &mut Names| {
        let end = names.scope("foo.end");
        let any = names.scope("foo.any");
        let mut b = SyntaxBuilder::new();
        let main = b.ctx("main");
        b.contexts[main].entries = vec![
            pat(if nl { "foo[\\n]" } else { "foo$" }, vec![end], MatchOperation::NoOp),
            pat("foo", vec![any], MatchOperation::NoOp),
        ];
        b.finish(names.scope("source.test"), None)
    };
    expect_stacks("foo", &["<source.test>, <foo.end>"], &build);
    expect_stacks(
        "foofoofoo",
        &[
            "<source.test>, <foo.any>",
            "<source.test>, <foo.any>",
            "<source.test>, <foo.end>",
        ],
        &build,
    );
}

#[test]
fn can_parse_non_consuming_pop_that_would_loop() {
    let build = |_nl: bool, names: &mut Names| {
        let matched = names.scope("test.matched");
        let mut b = SyntaxBuilder::new();
        let main = b.ctx("main");
        let test = b.ctx("test");
        b.contexts[main].entries = vec![pat("(?=hello)", vec![], MatchOperation::Push(vec![test]))];
        b.contexts[test].entries = vec![
            pat("(?!world)", vec![], MatchOperation::Pop),
            pat("\\w+", vec![matched], MatchOperation::NoOp),
        ];
        b.finish(names.scope("source.test"), None)
    };
    expect_stacks("hello", &["<source.test>, <test.matched>"], &build);
}

#[test]
fn can_parse_non_consuming_set_and_pop_that_would_loop() {
    let build = |_nl: bool, names: &mut Names| {
        let matched = names.scope("test.matched");
        let mut b = SyntaxBuilder::new();
        let main = b.ctx("main");
        let a = b.ctx("a");
        let c_b = b.ctx("b");
        b.contexts[main].entries = vec![pat("(?=test)", vec![], MatchOperation::Push(vec![a]))];
        b.contexts[a].entries = vec![pat("(?=t)", vec![], MatchOperation::SetTo(vec![c_b]))];
        b.contexts[c_b].entries = vec![
            pat("(?=t)", vec![], MatchOperation::Pop),
            pat("\\w+", vec![matched], MatchOperation::NoOp),
        ];
        b.finish(names.scope("source.test"), None)
    };
    expect_stacks("test", &["<source.test>, <test.matched>"], &build);
}

#[test]
fn can_parse_non_consuming_set_after_consuming_push_that_does_not_loop() {
    let build = |_nl: bool, names: &mut Names| {
        let matched = names.scope("test.matched");
        let mut b = SyntaxBuilder::new();
        let main = b.ctx("main");
        let a = b.ctx("a");
        let c_b = b.ctx("b");
        b.contexts[main].entries = vec![
            pat("t", vec![], MatchOperation::Push(vec![a])),
            pat("\\w+", vec![matched], MatchOperation::NoOp),
        ];
        b.contexts[a].entries = vec![pat("(?=e)", vec![], MatchOperation::SetTo(vec![c_b]))];
        b.contexts[c_b].entries = vec![pat("(?=e)", vec![], MatchOperation::Pop)];
        b.finish(names.scope("source.test"), None)
    };
    expect_stacks("test", &["<source.test>, <test.matched>"], &build);
}

#[test]
fn can_parse_non_consuming_set_after_consuming_set_that_does_not_loop() {
    let build = |_nl: bool, names: &mut Names| {
        let matched = names.scope("test.matched");
        let mut b = SyntaxBuilder::new();
        let main = b.ctx("main");
        let a = b.ctx("a");
        let c_b = b.ctx("b");
        let c = b.ctx("c");
        b.contexts[main].entries = vec![
            pat("(?=hello)", vec![], MatchOperation::Push(vec![a])),
            pat("\\w+", vec![matched], MatchOperation::NoOp),
        ];
        b.contexts[a].entries = vec![pat("h", vec![], MatchOperation::SetTo(vec![c_b]))];
        b.contexts[c_b].entries = vec![pat("(?=e)", vec![], MatchOperation::SetTo(vec![c]))];
        b.contexts[c].entries = vec![pat("(?=e)", vec![], MatchOperation::Pop)];
        b.finish(names.scope("source.test"), None)
    };
    expect_stacks("hello", &["<source.test>, <test.matched>"], &build);
}

#[test]
fn can_parse_non_consuming_pop_that_would_loop_at_end_of_line() {
    let build = |_nl: bool, names: &mut Names| {
        let matched = names.scope("test.matched");
        let mut b = SyntaxBuilder::new();
        let main = b.ctx("main");
        let test = b.ctx("test");
        b.contexts[main].entries = vec![pat("", vec![], MatchOperation::Push(vec![test]))];
        b.contexts[test].entries = vec![
            pat("", vec![], MatchOperation::Pop),
            pat("\\w+", vec![matched], MatchOperation::NoOp),
        ];
        b.finish(names.scope("source.test"), None)
    };
    expect_stacks("hello", &["<source.test>, <test.matched>"], &build);
}

#[test]
fn can_parse_empty_but_consuming_set_that_does_not_loop() {
    let build = |_nl: bool, names: &mut Names| {
        let good = names.scope("test.good");
        let bad = names.scope("test.bad");
        let mut b = SyntaxBuilder::new();
        let main = b.ctx("main");
        let a = b.ctx("a");
        let c_b = b.ctx("b");
        b.contexts[main].entries = vec![
            pat("(?=hello)", vec![], MatchOperation::Push(vec![a])),
            pat("ello", vec![good], MatchOperation::NoOp),
        ];
        b.contexts[a].entries = vec![pat("h", vec![], MatchOperation::SetTo(vec![c_b]))];
        b.contexts[c_b].entries = vec![
            pat("", vec![], MatchOperation::Pop),
            pat("ello", vec![bad], MatchOperation::NoOp),
        ];
        b.finish(names.scope("source.test"), None)
    };
    expect_stacks("hello", &["<source.test>, <test.good>"], &build);
}

#[test]
fn can_parse_non_consuming_pop_that_does_not_loop() {
    let build = |_nl: bool, names: &mut Names| {
        let good = names.scope("test.good");
        let bad = names.scope("test.bad");
        let mut b = SyntaxBuilder::new();
        let main = b.ctx("main");
        let a = b.ctx("a");
        let c_b = b.ctx("b");
        let c = b.ctx("c");
        b.contexts[main].entries = vec![
            pat("(?=hello)", vec![], MatchOperation::Push(vec![c_b, a])),
            pat("ello", vec![good], MatchOperation::NoOp),
        ];
        b.contexts[a].entries = vec![pat("(?=e)", vec![], MatchOperation::Pop)];
        b.contexts[c_b].entries = vec![pat("(?=e)", vec![], MatchOperation::SetTo(vec![c]))];
        b.contexts[c].entries = vec![
            pat("", vec![], MatchOperation::Pop),
            pat("ello", vec![bad], MatchOperation::NoOp),
        ];
        b.finish(names.scope("source.test"), None)
    };
    expect_stacks("hello", &["<source.test>, <test.good>"], &build);
}

#[test]
fn can_parse_non_consuming_pop_with_multi_push_that_does_not_loop() {
    let build = |_nl: bool, names: &mut Names| {
        let good = names.scope("test.good");
        let bad = names.scope("test.bad");
        let mut b = SyntaxBuilder::new();
        let main = b.ctx("main");
        let a = b.ctx("a");
        let c_b = b.ctx("b");
        b.contexts[main].entries = vec![pat("(?=hello)", vec![], MatchOperation::Push(vec![c_b, a]))];
        b.contexts[a].entries = vec![
            pat("", vec![], MatchOperation::Pop),
            pat("\\w+", vec![bad], MatchOperation::NoOp),
        ];
        b.contexts[c_b].entries = vec![pat("\\w+", vec![good], MatchOperation::NoOp)];
        b.finish(names.scope("source.test"), None)
    };
    expect_stacks("hello", &["<source.test>, <test.good>"], &build);
}

#[test]
fn can_parse_non_consuming_pop_of_recursive_context_that_does_not_loop() {
    let build = |_nl: bool, names: &mut Names| {
        let good = names.scope("test.good");
        let matched = names.scope("test.matched");
        let inside = names.scope("test.matched.inside");
        let mut b = SyntaxBuilder::new();
        let main = b.ctx("main");
        let idents = b.ctx("basic-identifiers");
        let ntn = b.ctx("no-type-names");
        b.contexts[main].entries = vec![
            pat("xxx", vec![good], MatchOperation::NoOp),
            ContextEntry::Embed(idents),
        ];
        b.contexts[idents].entries =
            vec![pat("\\w+::", vec![matched], MatchOperation::Push(vec![ntn]))];
        b.contexts[ntn].entries = vec![
            ContextEntry::Embed(idents),
            pat("\\w+", vec![inside], MatchOperation::NoOp),
            pat("", vec![], MatchOperation::Pop),
        ];
        b.finish(names.scope("source.test"), None)
    };
    expect_stacks("foo::bar::* xxx", &["<source.test>, <test.good>"], &build);
}

#[test]
fn can_parse_non_consuming_pop_order() {
    let build = |_nl: bool, names: &mut Names| {
        let good = names.scope("test.good");
        let bad = names.scope("test.bad");
        let mut b = SyntaxBuilder::new();
        let main = b.ctx("main");
        let test = b.ctx("test");
        let cgood = b.ctx("good");
        let cbad = b.ctx("bad");
        b.contexts[main].entries = vec![pat("(?=hello)", vec![], MatchOperation::Push(vec![test]))];
        b.contexts[test].entries = vec![
            pat("(?=e)", vec![], MatchOperation::Push(vec![cgood])),
            pat("(?=h)", vec![], MatchOperation::Pop),
            pat("(?=o)", vec![], MatchOperation::Push(vec![cbad])),
        ];
        b.contexts[cgood].entries = vec![pat("\\w+", vec![good], MatchOperation::NoOp)];
        b.contexts[cbad].entries = vec![pat("\\w+", vec![bad], MatchOperation::NoOp)];
        b.finish(names.scope("source.test"), None)
    };
    expect_stacks("hello", &["<source.test>, <test.good>"], &build);
}

/// The string-with-cleared-scopes syntax the clear-scope tests share.
fn clear_scopes_syntax(names: &mut Names, amount: ClearAmount, nested: bool) -> ContextGraph {
    let escape = names.scope("constant.character.escape.example");
    let string_meta = names.scope("string.quoted.single.example");
    let after = names.scope("example.meta-scope.after-clear-scopes.example");
    let pushes = names.scope("example.pushes-clear-scopes.example");
    let pops = names.scope("example.pops-clear-scopes.example");
    let mut b = SyntaxBuilder::new();
    let main = b.ctx("main");
    let string = b.ctx("string");
    let cleared = b.ctx("cleared");
    b.contexts[main].entries = vec![pat("'", vec![], MatchOperation::Push(vec![string]))];
    b.contexts[string].meta_scope = vec![string_meta];
    b.contexts[string].entries = vec![
        pat("\\\\.", vec![escape], MatchOperation::NoOp),
        pat("#\\w+_test", vec![], MatchOperation::Push(vec![cleared])),
        pat("'", vec![], MatchOperation::Pop),
    ];
    b.contexts[cleared].clear_scopes = Some(amount);
    b.contexts[cleared].meta_scope = vec![after];
    let mut entries = vec![pat("world", vec![pushes], MatchOperation::NoOp)];
    if nested {
        let previous = names.scope("example.meta-scope.cleared-previous-meta-scope.example");
        let foo = names.scope("foo");
        let inner = b.ctx("inner");
        entries.push(pat("foo", vec![], MatchOperation::Push(vec![inner])));
        b.contexts[inner].clear_scopes = Some(ClearAmount::TopN(1));
        b.contexts[inner].meta_scope = vec![previous];
        b.contexts[inner].entries = vec![
            pat("bar", vec![foo], MatchOperation::NoOp),
            pat("(?=\\s*test)", vec![], MatchOperation::Pop),
        ];
    }
    entries.push(pat("test", vec![pops], MatchOperation::Pop));
    b.contexts[cleared].entries = entries;
    b.finish(names.scope("source.test"), None)
}

#[test]
fn can_parse_non_nested_clear_scopes() {
    let line = "'hello #simple_cleared_scopes_test world test \\n '";
    let expect = [
        "<source.test>, <example.meta-scope.after-clear-scopes.example>, <example.pushes-clear-scopes.example>",
        "<source.test>, <example.meta-scope.after-clear-scopes.example>, <example.pops-clear-scopes.example>",
        "<source.test>, <string.quoted.single.example>, <constant.character.escape.example>",
    ];
    let build = |_nl: bool, names: &mut Names| clear_scopes_syntax(names, ClearAmount::TopN(1), false);
    expect_stacks(line, &expect, &build);
}

#[test]
fn can_parse_non_nested_too_many_clear_scopes() {
    let line = "'hello #too_many_cleared_scopes_test world test \\n '";
    let expect = [
        "<example.meta-scope.after-clear-scopes.example>, <example.pushes-clear-scopes.example>",
        "<example.meta-scope.after-clear-scopes.example>, <example.pops-clear-scopes.example>",
        "<source.test>, <string.quoted.single.example>, <constant.character.escape.example>",
    ];
    let build = |_nl: bool, names: &mut Names| clear_scopes_syntax(names, ClearAmount::TopN(5), false);
    expect_stacks(line, &expect, &build);
}

#[test]
fn can_parse_nested_clear_scopes() {
    let line = "'hello #nested_clear_scopes_test world foo bar test \\n '";
    let expect = [
        "<source.test>, <example.meta-scope.after-clear-scopes.example>, <example.pushes-clear-scopes.example>",
        "<source.test>, <example.meta-scope.cleared-previous-meta-scope.example>, <foo>",
        "<source.test>, <example.meta-scope.after-clear-scopes.example>, <example.pops-clear-scopes.example>",
        "<source.test>, <string.quoted.single.example>, <constant.character.escape.example>",
    ];
    let build = |_nl: bool, names: &mut Names| clear_scopes_syntax(names, ClearAmount::TopN(1), true);
    expect_stacks(line, &expect, &build);
}

#[test]
fn can_parse_infinite_loop() {
    let build = |_nl: bool, names: &mut Names| {
        let numeric = names.scope("constant.numeric.test");
        let stuck = names.scope("test.stuck");
        let mut b = SyntaxBuilder::new();
        let main = b.ctx("main");
        b.contexts[main].entries = vec![
            pat("", vec![stuck], MatchOperation::NoOp),
            pat("#\\w+_test", vec![], MatchOperation::NoOp),
            pat("[0-9]+", vec![numeric], MatchOperation::NoOp),
        ];
        b.finish(names.scope("source.test"), None)
    };
    expect_stacks(
        "#infinite_loop_test 123",
        &["<source.test>, <constant.numeric.test>"],
        &build,
    );
}

#[test]
fn can_parse_infinite_seeming_loop() {
    let build = |_nl: bool, names: &mut Names| {
        let keyword = names.scope("keyword.test");
        let meta = names.scope("test");
        let control = names.scope("keyword.control.test");
        let unquoted = names.scope("string.unquoted.test");
        let mut b = SyntaxBuilder::new();
        let main = b.ctx("main");
        let test = b.ctx("test");
        b.contexts[main].entries = vec![
            pat(
                "#infinite_seeming_loop_test",
                vec![keyword],
                MatchOperation::Push(vec![test]),
            ),
            pat("(?=h)", vec![], MatchOperation::Push(vec![test])),
        ];
        b.contexts[test].meta_content_scope = vec![meta];
        b.contexts[test].entries = vec![
            pat("(?=hello)", vec![], MatchOperation::Pop),
            pat("h", vec![control], MatchOperation::NoOp),
            pat("\\w+", vec![unquoted], MatchOperation::NoOp),
        ];
        b.finish(names.scope("source.test"), None)
    };
    expect_stacks(
        "#infinite_seeming_loop_test hello",
        &[
            "<source.test>, <keyword.test>",
            "<source.test>, <test>, <string.unquoted.test>",
            "<source.test>, <test>, <keyword.control.test>",
        ],
        &build,
    );
}

fn simple_graph(names: &mut Names) -> ContextGraph {
    let good = names.scope("test.good");
    let mut b = SyntaxBuilder::new();
    let main = b.ctx("main");
    b.contexts[main].entries = vec![pat("\\w+", vec![good], MatchOperation::NoOp)];
    b.finish(names.scope("source.test"), None)
}

#[test]
fn same_line_twice_gives_identical_ops() {
    let mut names = Names::new();
    let g = simple_graph(&mut names);
    let mut s1 = ParseState::new(&g);
    let mut s2 = ParseState::new(&g);
    let ops1 = s1.parse_line(&g, "hello world");
    let ops2 = s2.parse_line(&g, "hello world");
    assert_eq!(ops1, ops2);
    assert!(s1 == s2);
}

#[test]
fn clone_then_parse_equals_parse_then_clone() {
    let mut names = Names::new();
    let g = simple_graph(&mut names);
    let mut s1 = ParseState::new(&g);
    let _ = s1.parse_line(&g, "first line");
    let mut s2 = s1.clone();
    assert!(s1 == s2);
    let ops1 = s1.parse_line(&g, "second line");
    let ops2 = s2.parse_line(&g, "second line");
    assert_eq!(ops1, ops2);
    assert!(s1 == s2);
}

#[test]
fn capture_order_outer_before_inner() {
    let mut names = Names::new();
    let st = names.scope("source.test");
    let outer = names.scope("cap.outer");
    let bob = names.scope("cap.bob");
    let hi = names.scope("cap.hi");
    let mut b = SyntaxBuilder::new();
    let main = b.ctx("main");
    b.contexts[main].entries = vec![ContextEntry::Match(MatchPattern {
        regex_str: b"((bob)|(hi))*".to_vec(),
        has_captures: false,
        scope: vec![],
        captures: Some(vec![(1, vec![outer]), (2, vec![bob]), (3, vec![hi])]),
        operation: MatchOperation::NoOp,
        with_prototype: None,
    })];
    let g = b.finish(st, None);
    let mut state = ParseState::new(&g);
    let ops = state.parse_line(&g, "hibob");
    assert_eq!(
        ops,
        vec![
            (0, ScopeStackOp::Push(st)),
            (0, ScopeStackOp::Push(hi)),
            (2, ScopeStackOp::Pop(1)),
            (2, ScopeStackOp::Push(outer)),
            (2, ScopeStackOp::Push(bob)),
            (5, ScopeStackOp::Pop(1)),
            (5, ScopeStackOp::Pop(1)),
        ]
    );
}

#[test]
fn push_clears_before_token_set_clears_after() {
    // A push whose target clears scopes emits the clear at the match start.
    let mut names = Names::new();
    let st = names.scope("source.test");
    let mc = names.scope("meta.cleared");
    let mut b = SyntaxBuilder::new();
    let main = b.ctx("main");
    let c = b.ctx("c");
    b.contexts[main].entries = vec![pat("x", vec![], MatchOperation::Push(vec![c]))];
    b.contexts[c].clear_scopes = Some(ClearAmount::TopN(1));
    b.contexts[c].meta_scope = vec![mc];
    let g = b.finish(st, None);
    let mut state = ParseState::new(&g);
    let ops = state.parse_line(&g, "x");
    assert_eq!(
        ops,
        vec![
            (0, ScopeStackOp::Push(st)),
            (0, ScopeStackOp::Clear(ClearAmount::TopN(1))),
            (0, ScopeStackOp::Push(mc)),
        ]
    );

    // A set whose target clears scopes emits the clear only after the token.
    let mut names = Names::new();
    let st = names.scope("source.test");
    let mc = names.scope("meta.cleared");
    let mut b = SyntaxBuilder::new();
    let main = b.ctx("main");
    let d = b.ctx("d");
    let c = b.ctx("c");
    b.contexts[main].entries = vec![pat("y", vec![], MatchOperation::Push(vec![d]))];
    b.contexts[d].entries = vec![pat("x", vec![], MatchOperation::SetTo(vec![c]))];
    b.contexts[c].clear_scopes = Some(ClearAmount::TopN(1));
    b.contexts[c].meta_scope = vec![mc];
    let g = b.finish(st, None);
    let mut state = ParseState::new(&g);
    let ops = state.parse_line(&g, "yx");
    assert_eq!(
        ops,
        vec![
            (0, ScopeStackOp::Push(st)),
            (1, ScopeStackOp::Push(mc)),
            (2, ScopeStackOp::Pop(1)),
            (2, ScopeStackOp::Clear(ClearAmount::TopN(1))),
            (2, ScopeStackOp::Push(mc)),
        ]
    );
}

#[test]
fn heredoc_backref_closes_on_marker() {
    let mut names = Names::new();
    let st = names.scope("source.test");
    let begin = names.scope("string.begin.test");
    let end = names.scope("string.end.test");
    let mut b = SyntaxBuilder::new();
    let main = b.ctx("main");
    let heredoc = b.ctx("heredoc");
    b.contexts[main].entries = vec![ContextEntry::Match(MatchPattern {
        regex_str: b"<<-(\\w+)".to_vec(),
        has_captures: false,
        scope: vec![begin],
        captures: None,
        operation: MatchOperation::Push(vec![heredoc]),
        with_prototype: None,
    })];
    b.contexts[heredoc].uses_backrefs = true;
    b.contexts[heredoc].entries = vec![ContextEntry::Match(MatchPattern {
        regex_str: b"^\\1$".to_vec(),
        has_captures: true,
        scope: vec![end],
        captures: None,
        operation: MatchOperation::Pop,
        with_prototype: None,
    })];
    let g = b.finish(st, None);
    let mut state = ParseState::new(&g);
    let ops1 = state.parse_line(&g, "lol = <<-SQL");
    assert_eq!(
        ops1,
        vec![
            (0, ScopeStackOp::Push(st)),
            (6, ScopeStackOp::Push(begin)),
            (12, ScopeStackOp::Pop(1)),
        ]
    );
    let ops2 = state.parse_line(&g, "wow");
    assert_eq!(ops2, vec![]);
    let ops3 = state.parse_line(&g, "SQL");
    assert_eq!(
        ops3,
        vec![(0, ScopeStackOp::Push(end)), (3, ScopeStackOp::Pop(1))]
    );
    // The string is closed: a later marker line matches nothing.
    let ops4 = state.parse_line(&g, "SQL");
    assert_eq!(ops4, vec![]);
}

#[test]
fn build_rejects_dangling_reference() {
    let ctx = Context {
        entries: vec![pat("x", vec![], MatchOperation::Push(vec![7]))],
        meta_scope: vec![],
        meta_content_scope: vec![],
        clear_scopes: None,
        prototype: None,
        uses_backrefs: false,
    };
    assert!(ContextGraph::build(vec![ctx], 0).is_none());
    assert!(ContextGraph::build(vec![], 0).is_none());
}

#[test]
fn empty_line_emits_only_the_first_line_scope() {
    let mut names = Names::new();
    let g = simple_graph(&mut names);
    let st = names.scope("source.test");
    let mut state = ParseState::new(&g);
    let ops = state.parse_line(&g, "");
    assert_eq!(ops, vec![(0, ScopeStackOp::Push(st))]);
    let ops2 = state.parse_line(&g, "");
    assert_eq!(ops2, vec![]);
}

#[test]
fn with_prototype_patterns_apply_while_frame_is_on_the_stack() {
    let build = |_nl: bool, names: &mut Names| {
        let x = names.scope("test.x");
        let proto_mark = names.scope("test.proto");
        let mut b = SyntaxBuilder::new();
        let main = b.ctx("main");
        let inner = b.ctx("inner");
        let wp = b.ctx("wp");
        b.contexts[main].entries = vec![ContextEntry::Match(MatchPattern {
            regex_str: b"\\[".to_vec(),
            has_captures: false,
            scope: vec![],
            captures: None,
            operation: MatchOperation::Push(vec![inner]),
            with_prototype: Some(wp),
        })];
        b.contexts[inner].entries = vec![
            pat("x", vec![x], MatchOperation::NoOp),
            pat("\\]", vec![], MatchOperation::Pop),
        ];
        b.contexts[wp].entries = vec![pat("!", vec![proto_mark], MatchOperation::NoOp)];
        b.finish(names.scope("source.test"), None)
    };
    expect_stacks(
        "[x!]x",
        &["<source.test>, <test.x>", "<source.test>, <test.proto>"],
        &build,
    );
    // Once the frame is popped, the attached prototype no longer applies:
    // the trailing "x" outside the brackets must not match "!" rules, and
    // "!" after the brackets matches nothing.
    let mut names = Names::new();
    let g = build(false, &mut names);
    let mut state = ParseState::new(&g);
    let ops = state.parse_line(&g, "[!]!");
    let bang = names.scope("test.proto");
    let n_bang = ops
        .iter()
        .filter(|(_, op)| matches!(op, ScopeStackOp::Push(s) if *s == bang))
        .count();
    assert_eq!(n_bang, 1);
}

#[test]
fn pathological_push_cycle_still_terminates() {
    // A context that keeps pushing itself without consuming anything gets
    // nowhere; the step budget ends the line instead of spinning forever.
    let mut names = Names::new();
    let st = names.scope("source.test");
    let mut b = SyntaxBuilder::new();
    let main = b.ctx("main");
    b.contexts[main].entries = vec![pat("(?=x)", vec![], MatchOperation::Push(vec![main]))];
    let g = b.finish(st, None);
    let mut state = ParseState::new(&g);
    let ops = state.parse_line(&g, "x");
    assert_eq!(ops, vec![(0, ScopeStackOp::Push(st))]);
}

#[test]
fn rejected_regex_never_matches() {
    let mut names = Names::new();
    let st = names.scope("source.test");
    let bad = names.scope("test.bad");
    let good = names.scope("test.good");
    let mut b = SyntaxBuilder::new();
    let main = b.ctx("main");
    b.contexts[main].entries = vec![
        pat("(", vec![bad], MatchOperation::NoOp),
        pat("x", vec![good], MatchOperation::NoOp),
    ];
    let g = b.finish(st, None);
    let mut state = ParseState::new(&g);
    let ops = state.parse_line(&g, "x(");
    assert_eq!(
        ops,
        vec![
            (0, ScopeStackOp::Push(st)),
            (0, ScopeStackOp::Push(good)),
            (1, ScopeStackOp::Pop(1)),
        ]
    );
}

#[test]
fn set_pushes_all_targets_in_order() {
    let build = |_nl: bool, names: &mut Names| {
        let goodx = names.scope("good.x");
        let mut b = SyntaxBuilder::new();
        let main = b.ctx("main");
        let x = b.ctx("x");
        let y = b.ctx("y");
        b.contexts[main].entries = vec![pat("a", vec![], MatchOperation::SetTo(vec![x, y]))];
        b.contexts[y].entries = vec![pat("b", vec![], MatchOperation::Pop)];
        b.contexts[x].entries = vec![pat("c", vec![goodx], MatchOperation::NoOp)];
        b.finish(names.scope("source.test"), None)
    };
    expect_stacks("abc", &["<source.test>, <good.x>"], &build);
}
