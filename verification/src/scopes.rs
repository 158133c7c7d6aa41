//! Scope graph resolution: scopes are consulted depth-first from a LIFO
//! worklist seeded with the `"global"` scope and, on top of it, the
//! requested context, so the context is consulted first. A scope with no
//! hit pushes its parent scope names, in their declared order, onto the
//! worklist; a scope already consulted is skipped, so resolution terminates
//! on every configuration, extension cycles included, while returning the
//! same result as an unchecked walk on every cycle-free configuration.

use vstd::prelude::*;

use crate::config::{cfg_lookup, lemma_cfg_lookup_is_entry, Config, ScopeV};
use crate::cycle::{next_in_scope, scope_next};

verus! {

/// The name of the scope that is always consulted, whether or not a
/// context was requested.
pub open spec fn global_scope_name() -> Seq<char> {
    "global"@
}

/// The initial worklist: the global scope, and on top of it the requested
/// context, if any, so that the context is popped first.
pub open spec fn initial_stack(context: Option<Seq<char>>) -> Seq<Seq<char>> {
    match context {
        None => seq![global_scope_name()],
        Some(c) => seq![global_scope_name(), c],
    }
}

/// How many configuration entries carry a name that is not yet in
/// `visited`: the termination measure of the resolution walk.
pub open spec fn unvisited_count(cfg: Seq<(Seq<char>, ScopeV)>, visited: Seq<Seq<char>>) -> nat
    decreases cfg.len(),
{
    if cfg.len() == 0 {
        0
    } else {
        (if visited.contains(cfg[0].0) {
            0nat
        } else {
            1nat
        }) + unvisited_count(cfg.drop_first(), visited)
    }
}

/// Marking one more name as visited never raises the measure.
pub proof fn lemma_unvisited_push_le(cfg: Seq<(Seq<char>, ScopeV)>, visited: Seq<Seq<char>>, k: Seq<char>)
    ensures
        unvisited_count(cfg, visited.push(k)) <= unvisited_count(cfg, visited),
    decreases cfg.len(),
{
    broadcast use vstd::seq_lib::lemma_seq_contains_after_push;

    if cfg.len() > 0 {
        lemma_unvisited_push_le(cfg.drop_first(), visited, k);
    }
}

/// Marking a configured, not yet visited name as visited strictly lowers
/// the measure.
pub proof fn lemma_unvisited_push_lt(cfg: Seq<(Seq<char>, ScopeV)>, visited: Seq<Seq<char>>, k: Seq<char>)
    requires
        cfg_lookup(cfg, k) is Some,
        !visited.contains(k),
    ensures
        unvisited_count(cfg, visited.push(k)) < unvisited_count(cfg, visited),
    decreases cfg.len(),
{
    broadcast use vstd::seq_lib::lemma_seq_contains_after_push;

    if cfg[0].0 == k {
        lemma_unvisited_push_le(cfg.drop_first(), visited, k);
    } else {
        lemma_unvisited_push_lt(cfg.drop_first(), visited, k);
    }
}

/// The result of the resolution walk from a given worklist: the top name is
/// popped; an unknown name is skipped silently; a known, unvisited scope is
/// consulted, its hit ends the walk at once, and on a miss its parents are
/// pushed; a scope already consulted is skipped. An empty worklist means no
/// match.
pub open spec fn resolve_rec(
    cfg: Seq<(Seq<char>, ScopeV)>,
    stack: Seq<Seq<char>>,
    visited: Seq<Seq<char>>,
    w: Seq<char>,
) -> Option<Seq<char>>
    decreases unvisited_count(cfg, visited), stack.len(),
{
    if stack.len() == 0 {
        None
    } else {
        let name = stack.last();
        let rest = stack.drop_last();
        match cfg_lookup(cfg, name) {
            None => resolve_rec(cfg, rest, visited, w),
            Some(scope) => if visited.contains(name) {
                resolve_rec(cfg, rest, visited, w)
            } else {
                match scope_next(scope.toggles, w) {
                    Some(r) => Some(r),
                    None => {
                        proof {
                            lemma_unvisited_push_lt(cfg, visited, name);
                        }
                        resolve_rec(cfg, rest + scope.extends, visited.push(name), w)
                    },
                }
            },
        }
    }
}

/// What resolution returns for a configuration, an optional context tag and
/// a search word: the walk of [`resolve_rec`] from the initial worklist
/// with nothing visited yet.
pub open spec fn resolve_spec(
    cfg: Seq<(Seq<char>, ScopeV)>,
    context: Option<Seq<char>>,
    w: Seq<char>,
) -> Option<Seq<char>> {
    resolve_rec(cfg, initial_stack(context), Seq::empty(), w)
}

/// Global fallback: when no context is requested, only the global scope
/// and its extensions are consulted; so when the global scope has no
/// parents and no group containing the word, resolution finds nothing,
/// whatever the other scopes contain.
pub proof fn lemma_global_fallback(cfg: Seq<(Seq<char>, ScopeV)>, g: ScopeV, w: Seq<char>)
    requires
        cfg_lookup(cfg, global_scope_name()) == Some(g),
        g.extends.len() == 0,
        scope_next(g.toggles, w) is None,
    ensures
        resolve_spec(cfg, None, w) is None,
{
    let stack = initial_stack(None);
    assert(stack.last() == global_scope_name());
    let stack2 = stack.drop_last() + g.extends;
    assert(stack2.len() == 0);
    assert(resolve_rec(cfg, stack2, Seq::<Seq<char>>::empty().push(global_scope_name()), w)
        is None);
}

/// Context precedence: when the requested context scope itself resolves
/// the word, its successor is the result, whatever the global scope or any
/// other scope would have answered.
pub proof fn lemma_context_precedence(
    cfg: Seq<(Seq<char>, ScopeV)>,
    ctx: Seq<char>,
    c: ScopeV,
    w: Seq<char>,
    r: Seq<char>,
)
    requires
        cfg_lookup(cfg, ctx) == Some(c),
        scope_next(c.toggles, w) == Some(r),
    ensures
        resolve_spec(cfg, Some(ctx), w) == Some(r),
{
    let stack = initial_stack(Some(ctx));
    assert(stack.last() == ctx);
}

/// Extension traversal: when the requested context scope itself has no
/// hit, resolution continues with the scope's parents pushed, in their
/// declared order, onto a worklist that still holds the global scope
/// beneath them, the context scope now counting as consulted.
pub proof fn lemma_extension_traversal(
    cfg: Seq<(Seq<char>, ScopeV)>,
    ctx: Seq<char>,
    c: ScopeV,
    w: Seq<char>,
)
    requires
        cfg_lookup(cfg, ctx) == Some(c),
        scope_next(c.toggles, w) is None,
    ensures
        resolve_spec(cfg, Some(ctx), w) == resolve_rec(
            cfg,
            seq![global_scope_name()] + c.extends,
            seq![ctx],
            w,
        ),
{
    let stack = initial_stack(Some(ctx));
    assert(stack.last() == ctx);
    assert(stack.drop_last() + c.extends =~= seq![global_scope_name()] + c.extends);
    assert(Seq::<Seq<char>>::empty().push(ctx) =~= seq![ctx]);
}

/// A walk over a configuration none of whose scopes contains the word
/// finds nothing, whatever the worklist and whatever was visited.
pub proof fn lemma_resolve_rec_total_miss(
    cfg: Seq<(Seq<char>, ScopeV)>,
    stack: Seq<Seq<char>>,
    visited: Seq<Seq<char>>,
    w: Seq<char>,
)
    requires
        forall|j: int| 0 <= j < cfg.len() ==> scope_next(#[trigger] cfg[j].1.toggles, w) is None,
    ensures
        resolve_rec(cfg, stack, visited, w) is None,
    decreases unvisited_count(cfg, visited), stack.len(),
{
    if stack.len() > 0 {
        let name = stack.last();
        let rest = stack.drop_last();
        match cfg_lookup(cfg, name) {
            None => {
                lemma_resolve_rec_total_miss(cfg, rest, visited, w);
            },
            Some(scope) => {
                lemma_cfg_lookup_is_entry(cfg, name);
                assert(scope_next(scope.toggles, w) is None);
                if visited.contains(name) {
                    lemma_resolve_rec_total_miss(cfg, rest, visited, w);
                } else {
                    lemma_unvisited_push_lt(cfg, visited, name);
                    lemma_resolve_rec_total_miss(cfg, rest + scope.extends, visited.push(name), w);
                }
            },
        }
    }
}

/// Pass-through on a total miss: when no group of any scope of the
/// configuration contains the word, resolution finds nothing, with or
/// without a context, and the toggled word is the search word itself.
pub proof fn lemma_pass_through_on_total_miss(
    cfg: Seq<(Seq<char>, ScopeV)>,
    context: Option<Seq<char>>,
    w: Seq<char>,
)
    requires
        forall|j: int| 0 <= j < cfg.len() ==> scope_next(#[trigger] cfg[j].1.toggles, w) is None,
    ensures
        resolve_spec(cfg, context, w) is None,
{
    lemma_resolve_rec_total_miss(cfg, initial_stack(context), Seq::empty(), w);
}

/// Does `names` hold a string equal to `name`?
fn contains_name(names: &Vec<String>, name: &String) -> (r: bool)
    ensures
        r == names.deep_view().contains(name@),
{
    let ghost ns = names.deep_view();
    let n = names.len();
    let mut i: usize = 0;
    while i < n
        invariant
            i <= n,
            n == names.len(),
            ns == names.deep_view(),
            forall|j: int| 0 <= j < i ==> ns[j] != name@,
        decreases n - i,
    {
        if names[i] == *name {
            assert(ns[i as int] == name@);
            return true;
        }
        i = i + 1;
    }
    assert(!ns.contains(name@));
    false
}

/// Pushes every string of `names`, in order, onto the end of `stack`.
fn push_all(stack: &mut Vec<String>, names: &Vec<String>)
    ensures
        final(stack).deep_view() == old(stack).deep_view() + names.deep_view(),
{
    let ghost base = old(stack).deep_view();
    let ghost ns = names.deep_view();
    let n = names.len();
    let mut i: usize = 0;
    while i < n
        invariant
            i <= n,
            n == names.len(),
            ns == names.deep_view(),
            stack.deep_view() == base + ns.take(i as int),
        decreases n - i,
    {
        proof {
            assert(stack.deep_view().push(ns[i as int]) =~= base + ns.take(i as int + 1));
        }
        stack.push(names[i].clone());
        proof {
            assert(stack.deep_view() =~= (base + ns.take(i as int)).push(ns[i as int]));
        }
        i = i + 1;
    }
    proof {
        assert(base + ns.take(n as int) =~= base + ns);
    }
}

/// Resolves the toggle of `search_word`: the requested context scope is
/// consulted first, then the global scope, each miss pushing the missing
/// scope's parents; the first hit wins, and `None` means no reachable scope
/// contains the word.
pub fn resolve(config: &Config, context: Option<&String>, search_word: &String) -> (r: Option<
    String,
>)
    ensures
        r.deep_view() == resolve_spec(config@, context.deep_view(), search_word@),
{
    let ghost cfg = config@;
    let ghost w = search_word@;
    let ghost goal = resolve_spec(cfg, context.deep_view(), w);

    let mut stack: Vec<String> = Vec::new();
    stack.push(String::from_str("global"));
    if let Some(c) = context {
        stack.push(c.clone());
    }
    let mut visited: Vec<String> = Vec::new();
    proof {
        assert(stack.deep_view() =~= initial_stack(context.deep_view()));
        assert(visited.deep_view() =~= Seq::<Seq<char>>::empty());
    }
    while stack.len() != 0
        invariant
            cfg == config@,
            w == search_word@,
            goal == resolve_spec(config@, context.deep_view(), search_word@),
            resolve_rec(cfg, stack.deep_view(), visited.deep_view(), w) == goal,
        decreases unvisited_count(cfg, visited.deep_view()), stack.len(),
    {
        let ghost stack0 = stack.deep_view();
        let ghost vd = visited.deep_view();
        let name = stack.pop().unwrap();
        proof {
            assert(stack.deep_view() =~= stack0.drop_last());
            assert(stack0.last() == name@);
        }
        match config.lookup(&name) {
            None => {
                proof {
                    assert(resolve_rec(cfg, stack0, vd, w) == resolve_rec(
                        cfg,
                        stack0.drop_last(),
                        vd,
                        w,
                    ));
                }
            },
            Some(scope) => {
                if contains_name(&visited, &name) {
                    proof {
                        assert(resolve_rec(cfg, stack0, vd, w) == resolve_rec(
                            cfg,
                            stack0.drop_last(),
                            vd,
                            w,
                        ));
                    }
                } else {
                    match next_in_scope(&scope.toggles, search_word) {
                        Some(found) => {
                            proof {
                                assert(resolve_rec(cfg, stack0, vd, w) == Some(found@));
                            }
                            return Some(found.clone());
                        },
                        None => {
                            proof {
                                lemma_unvisited_push_lt(cfg, vd, name@);
                            }
                            let ghost nv = name@;
                            visited.push(name);
                            push_all(&mut stack, &scope.extends);
                            proof {
                                assert(visited.deep_view() =~= vd.push(nv));
                                assert(stack.deep_view() == stack0.drop_last() + scope@.extends);
                                assert(resolve_rec(cfg, stack0, vd, w) == resolve_rec(
                                    cfg,
                                    stack0.drop_last() + scope@.extends,
                                    vd.push(nv),
                                    w,
                                ));
                            }
                        },
                    }
                }
            },
        }
    }
    None
}

/// The toggled word, or the search word itself when no reachable scope
/// contains it: a total miss passes the input through unchanged.
pub fn toggle_word(config: &Config, context: Option<&String>, search_word: &String) -> (r: String)
    ensures
        r@ == match resolve_spec(config@, context.deep_view(), search_word@) {
            Some(v) => v,
            None => search_word@,
        },
{
    match resolve(config, context, search_word) {
        Some(v) => v,
        None => search_word.clone(),
    }
}

} // verus!
