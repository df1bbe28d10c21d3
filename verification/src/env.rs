//! Environments: variable bindings in nested scopes, and their garbage collection.
//!
//! Environments are numbered, the root being 0; each other one derives from an
//! earlier one, where names that it does not bind are looked up. For garbage
//! collection, `refs[i]` lists the environments that the closures bound in
//! environment `i` capture. An environment is reachable when a chain of such
//! references leads to it from the root; the others can be collected.

use vstd::prelude::*;
use vstd::set_lib::{lemma_int_range, lemma_len_subset, set_int_range};
use crate::expr::{Expr, ExprView};

verus! {

/// `g` holds an edge from `a` to `b`.
pub open spec fn edge(g: Seq<Seq<usize>>, a: int, b: int) -> bool {
    0 <= a < g.len() && exists|j: int| 0 <= j < g[a].len() && g[a][j] == b
}

/// `x` can be reached from `root` in at most `n` steps.
pub open spec fn reach_in(g: Seq<Seq<usize>>, root: int, n: nat, x: int) -> bool
    decreases n,
{
    if n == 0 {
        x == root
    } else {
        reach_in(g, root, (n - 1) as nat, x) || exists|y: int|
            reach_in(g, root, (n - 1) as nat, y) && #[trigger] edge(g, y, x)
    }
}

/// `x` can be reached from `root`.
pub open spec fn reachable(g: Seq<Seq<usize>>, root: int, x: int) -> bool {
    exists|n: nat| reach_in(g, root, n, x)
}

/// Every edge of `g` leads to an environment of `g`.
pub open spec fn well_formed_refs(g: Seq<Seq<usize>>) -> bool {
    forall|a: int, j: int| 0 <= a < g.len() && 0 <= j < g[a].len() ==> #[trigger] g[a][j] < g.len()
}

proof fn lemma_reach_step(g: Seq<Seq<usize>>, root: int, y: int, x: int)
    requires
        reachable(g, root, y),
        edge(g, y, x),
    ensures
        reachable(g, root, x),
{
    let n = choose|n: nat| reach_in(g, root, n, y);
    assert(reach_in(g, root, n + 1, x));
}

/// A marked set that holds the root and all the successors of its members holds
/// everything that is reachable.
proof fn lemma_closed_holds_reachable(g: Seq<Seq<usize>>, root: int, marks: Seq<bool>, n: nat, x: int)
    requires
        marks.len() == g.len(),
        0 <= root < g.len(),
        marks[root],
        well_formed_refs(g),
        forall|a: int, j: int|
            0 <= a < g.len() && marks[a] && 0 <= j < g[a].len() ==> marks[#[trigger] g[a][j] as int],
        reach_in(g, root, n, x),
    ensures
        0 <= x < g.len() && marks[x],
    decreases n,
{
    if n > 0 {
        if reach_in(g, root, (n - 1) as nat, x) {
            lemma_closed_holds_reachable(g, root, marks, (n - 1) as nat, x);
        } else {
            let y = choose|y: int| reach_in(g, root, (n - 1) as nat, y) && #[trigger] edge(g, y, x);
            lemma_closed_holds_reachable(g, root, marks, (n - 1) as nat, y);
            let j = choose|j: int| 0 <= j < g[y].len() && g[y][j] == x;
            assert(marks[g[y][j] as int]);
        }
    }
}

/// Marks the environments reachable from `root`: the result holds `true` exactly at
/// them.
pub fn gc_mark(refs: &Vec<Vec<usize>>, root: usize) -> (marks: Vec<bool>)
    requires
        root < refs@.len(),
        well_formed_refs(refs@.map_values(|r: Vec<usize>| r@)),
    ensures
        marks@.len() == refs@.len(),
        forall|i: int|
            0 <= i < marks@.len() ==> (marks@[i] <==> reachable(
                refs@.map_values(|r: Vec<usize>| r@),
                root as int,
                i,
            )),
{
    let ghost g = refs@.map_values(|r: Vec<usize>| r@);
    let n = refs.len();
    let mut marks: Vec<bool> = Vec::new();
    let mut i: usize = 0;
    while i < n
        invariant
            i <= n,
            n == refs@.len(),
            marks@.len() == i,
            forall|k: int| 0 <= k < i ==> !marks@[k],
        decreases n - i,
    {
        marks.push(false);
        i = i + 1;
    }
    let ghost before = marks@;
    marks.set(root, true);
    let mut stack: Vec<usize> = Vec::new();
    stack.push(root);
    let ghost mut marked: Set<int> = set![root as int];
    let mut unmarked: usize = n - 1;
    proof {
        assert(reach_in(g, root as int, 0, root as int));
        assert(stack@[0] == root);
        assert(forall|k: int| 0 <= k < n && k != root ==> !marks@[k]);
        assert forall|a: int, j: int|
            0 <= a < n && marks@[a] && !stack@.contains(a as usize) && 0 <= j < g[a].len()
                implies marks@[#[trigger] g[a][j] as int] by {
            assert(a == root);
            assert(stack@.contains(root));
        }
        assert(set![root as int].len() == 1);
    }
    loop
        invariant
            n == refs@.len(),
            g == refs@.map_values(|r: Vec<usize>| r@),
            well_formed_refs(g),
            root < n,
            marks@.len() == n,
            marks@[root as int],
            forall|k: int| 0 <= k < n ==> (marks@[k] <==> marked.contains(k)),
            marked.finite(),
            marked.subset_of(set_int_range(0, n as int)),
            unmarked + marked.len() == n,
            forall|k: int| 0 <= k < n && #[trigger] marks@[k] ==> reachable(g, root as int, k),
            forall|k: int| 0 <= k < stack@.len() ==> #[trigger] stack@[k] < n && marks@[stack@[k] as int],
            forall|k: int, l: int| 0 <= k < l < stack@.len() ==> stack@[k] != stack@[l],
            forall|a: int, j: int|
                0 <= a < n && marks@[a] && !stack@.contains(a as usize) && 0 <= j < g[a].len()
                    ==> marks@[#[trigger] g[a][j] as int],
        decreases 2 * unmarked + stack@.len(),
    {
        let ghost old_stack = stack@;
        let a = match stack.pop() {
            Some(a) => a,
            None => {
                proof {
                    assert forall|x: int| 0 <= x < marks@.len() implies (marks@[x] <==> reachable(g, root as int, x)) by {
                        if reachable(g, root as int, x) {
                            let m = choose|m: nat| reach_in(g, root as int, m, x);
                            lemma_closed_holds_reachable(g, root as int, marks@, m, x);
                        }
                    }
                }
                return marks;
            },
        };
        let ghost stack_after_pop = stack@;
        proof {
            assert forall|x: usize| x != a && !stack_after_pop.contains(x)
                implies !(#[trigger] old_stack.contains(x)) by {
                if old_stack.contains(x) {
                    let k = choose|k: int| 0 <= k < old_stack.len() && old_stack[k] == x;
                    assert(stack_after_pop[k] == x);
                }
            }
            assert(!stack_after_pop.contains(a)) by {
                if stack_after_pop.contains(a) {
                    let k = choose|k: int| 0 <= k < stack_after_pop.len() && stack_after_pop[k] == a;
                    assert(old_stack[k] == old_stack[old_stack.len() - 1]);
                }
            }
        }
        let edges = &refs[a];
        assert(edges@ == g[a as int]);
        let ghost unmarked_at_pop = unmarked;
        let mut j: usize = 0;
        while j < edges.len()
            invariant
                n == refs@.len(),
                g == refs@.map_values(|r: Vec<usize>| r@),
                well_formed_refs(g),
                root < n,
                a < n,
                edges@ == g[a as int],
                j <= edges@.len(),
                marks@.len() == n,
                marks@[root as int],
                marks@[a as int],
                !stack_after_pop.contains(a),
                forall|k: int| 0 <= k < n ==> (marks@[k] <==> marked.contains(k)),
                marked.finite(),
                marked.subset_of(set_int_range(0, n as int)),
                unmarked + marked.len() == n,
                forall|k: int| 0 <= k < n && #[trigger] marks@[k] ==> reachable(g, root as int, k),
                unmarked <= unmarked_at_pop,
                stack@.len() == stack_after_pop.len() + (unmarked_at_pop - unmarked),
                stack_after_pop.len() + 1 == old_stack.len(),
                stack@.subrange(0, stack_after_pop.len() as int) == stack_after_pop,
                forall|k: int| 0 <= k < stack@.len() ==> #[trigger] stack@[k] < n && marks@[stack@[k] as int],
                forall|k: int, l: int| 0 <= k < l < stack@.len() ==> stack@[k] != stack@[l],
                !stack@.contains(a),
                forall|k: int| 0 <= k < j ==> marks@[#[trigger] g[a as int][k] as int],
                forall|x: int, y: int|
                    0 <= x < n && marks@[x] && !stack@.contains(x as usize) && x != a && 0 <= y < g[x].len()
                        ==> marks@[#[trigger] g[x][y] as int],
            decreases edges@.len() - j,
        {
            let b = edges[j];
            assert(b < n);
            let ghost stack0 = stack@;
            let ghost marks0 = marks@;
            if !marks[b] {
                proof {
                    assert(edge(g, a as int, b as int));
                    lemma_reach_step(g, root as int, a as int, b as int);
                    lemma_int_range(0, n as int);
                    assert(!marked.contains(b as int));
                    lemma_len_subset(marked.insert(b as int), set_int_range(0, n as int));
                }
                marks.set(b, true);
                proof {
                    marked = marked.insert(b as int);
                }
                unmarked = unmarked - 1;
                stack.push(b);
                proof {
                    assert forall|x: usize| stack0.contains(x) implies #[trigger] stack@.contains(x) by {
                        let k = choose|k: int| 0 <= k < stack0.len() && stack0[k] == x;
                        assert(stack@[k] == x);
                    }
                    assert(stack@[stack@.len() - 1] == b);
                    assert(!stack@.contains(a)) by {
                        if stack@.contains(a) {
                            let k = choose|k: int| 0 <= k < stack@.len() && stack@[k] == a;
                            if k < stack0.len() {
                                assert(stack0.contains(a));
                            }
                        }
                    }
                    assert(stack@.subrange(0, stack_after_pop.len() as int) =~= stack0.subrange(0, stack_after_pop.len() as int));
                }
            }
            j = j + 1;
        }
    }
}

} // verus!

verus! {

/// The index of the root environment.
pub const ROOT_ENV: usize = 0;

/// A name bound to a value.
struct Binding {
    name: String,
    value: Expr,
}

/// An environment: the environment it derives from, its bindings (a name at most
/// once), and whether it is still in use.
struct Frame {
    base: Option<usize>,
    bindings: Vec<Binding>,
    live: bool,
}

/// The mathematical value of an environment: the environment it derives from, its
/// bindings, and whether it is in use.
pub struct FrameView {
    pub base: Option<int>,
    pub vars: Map<Seq<char>, ExprView>,
    pub live: bool,
}

spec fn bindings_map(bs: Seq<Binding>) -> Map<Seq<char>, ExprView>
    decreases bs.len(),
{
    if bs.len() == 0 {
        Map::empty()
    } else {
        bindings_map(bs.drop_last()).insert(bs.last().name@, bs.last().value@)
    }
}

spec fn distinct_names(bs: Seq<Binding>) -> bool {
    forall|i: int, j: int| 0 <= i < j < bs.len() ==> bs[i].name@ != bs[j].name@
}

spec fn frame_view(f: Frame) -> FrameView {
    FrameView {
        base: match f.base {
            Some(b) => Some(b as int),
            None => None,
        },
        vars: bindings_map(f.bindings@),
        live: f.live,
    }
}

/// The environments are well formed: there is a root, which derives from none, and
/// every other environment derives from none or from an earlier one.
pub open spec fn well_formed(frames: Seq<FrameView>) -> bool {
    &&& frames.len() >= 1
    &&& frames[0].base is None
    &&& forall|i: int| 0 <= i < frames.len() ==> match #[trigger] frames[i].base {
        Some(b) => 0 <= b < i,
        None => true,
    }
}

/// The environment that binds `name` for code running in `env`: `env` itself if it
/// binds it, otherwise the one that binds it for the environment `env` derives from.
pub open spec fn binder(frames: Seq<FrameView>, env: int, name: Seq<char>) -> Option<int>
    decreases env,
{
    if 0 <= env < frames.len() {
        if frames[env].vars.contains_key(name) {
            Some(env)
        } else {
            match frames[env].base {
                Some(b) => if 0 <= b < env {
                    binder(frames, b, name)
                } else {
                    None
                },
                None => None,
            }
        }
    } else {
        None
    }
}

/// The value of `name` for code running in `env` (see [`binder`]).
pub open spec fn resolve(frames: Seq<FrameView>, env: int, name: Seq<char>) -> Option<ExprView> {
    match binder(frames, env, name) {
        Some(k) => Some(frames[k].vars[name]),
        None => None,
    }
}

/// A closure bound in environment `a` captures environment `b`.
pub open spec fn captures(frames: Seq<FrameView>, a: int, b: int) -> bool {
    &&& 0 <= a < frames.len()
    &&& 0 <= b < frames.len()
    &&& exists|n: Seq<char>|
        #![trigger frames[a].vars[n]]
        frames[a].vars.contains_key(n) && (frames[a].vars[n] matches ExprView::Proc(h, _) && h.env
            == Some(b))
}

/// Environment `a` keeps environment `b` alive: a closure bound in `a` captures `b`,
/// or `a` derives from `b` (code running in `a` looks names up in `b`).
pub open spec fn env_edge(frames: Seq<FrameView>, a: int, b: int) -> bool {
    ||| captures(frames, a, b)
    ||| (0 <= a < frames.len() && 0 <= b < frames.len() && frames[a].base == Some(b))
}

/// Environment `x` can be reached from the root in at most `n` steps, each a capture
/// by a closure or the derivation of an environment from another (see [`env_edge`]).
pub open spec fn env_reach_in(frames: Seq<FrameView>, n: nat, x: int) -> bool
    decreases n,
{
    if n == 0 {
        x == ROOT_ENV as int
    } else {
        env_reach_in(frames, (n - 1) as nat, x) || exists|y: int|
            env_reach_in(frames, (n - 1) as nat, y) && #[trigger] env_edge(frames, y, x)
    }
}

/// Environment `x` can be reached from the root.
pub open spec fn env_reachable(frames: Seq<FrameView>, x: int) -> bool {
    exists|n: nat| env_reach_in(frames, n, x)
}

/// The number of the first `k` environments that are in use and cannot be reached.
pub open spec fn unreachable_count(frames: Seq<FrameView>, k: int) -> nat
    decreases k,
{
    if k <= 0 {
        0
    } else {
        unreachable_count(frames, k - 1) + if frames[k - 1].live && !env_reachable(frames, k - 1) {
            1nat
        } else {
            0nat
        }
    }
}

proof fn lemma_bindings_map_has(bs: Seq<Binding>, j: int)
    requires
        distinct_names(bs),
        0 <= j < bs.len(),
    ensures
        bindings_map(bs).contains_key(bs[j].name@),
        bindings_map(bs)[bs[j].name@] == bs[j].value@,
    decreases bs.len(),
{
    if j < bs.len() - 1 {
        lemma_bindings_map_has(bs.drop_last(), j);
    }
}

proof fn lemma_bindings_map_lacks(bs: Seq<Binding>, n: Seq<char>)
    requires
        forall|j: int| 0 <= j < bs.len() ==> bs[j].name@ != n,
    ensures
        !bindings_map(bs).contains_key(n),
    decreases bs.len(),
{
    if bs.len() > 0 {
        lemma_bindings_map_lacks(bs.drop_last(), n);
    }
}

proof fn lemma_bindings_map_keys(bs: Seq<Binding>, n: Seq<char>)
    requires
        bindings_map(bs).contains_key(n),
    ensures
        exists|j: int| 0 <= j < bs.len() && bs[j].name@ == n,
    decreases bs.len(),
{
    if bs.last().name@ != n {
        lemma_bindings_map_keys(bs.drop_last(), n);
        let j = choose|j: int| 0 <= j < bs.len() - 1 && bs.drop_last()[j].name@ == n;
        assert(bs[j].name@ == n);
    }
}

proof fn lemma_bindings_map_update(bs: Seq<Binding>, j: int, b: Binding)
    requires
        distinct_names(bs),
        0 <= j < bs.len(),
        b.name@ == bs[j].name@,
    ensures
        distinct_names(bs.update(j, b)),
        bindings_map(bs.update(j, b)) == bindings_map(bs).insert(b.name@, b.value@),
    decreases bs.len(),
{
    let cs = bs.update(j, b);
    if j == bs.len() - 1 {
        assert(cs.drop_last() =~= bs.drop_last());
        lemma_bindings_map_lacks(bs.drop_last(), b.name@);
        assert(bindings_map(cs) =~= bindings_map(bs).insert(b.name@, b.value@));
    } else {
        lemma_bindings_map_update(bs.drop_last(), j, b);
        assert(cs.drop_last() =~= bs.drop_last().update(j, b));
        assert(bindings_map(cs) =~= bindings_map(bs).insert(b.name@, b.value@));
    }
}

/// All the environments of an evaluation.
pub struct Envs {
    frames: Vec<Frame>,
}

impl Envs {
    /// The environments, by index.
    pub closed spec fn frames(&self) -> Seq<FrameView> {
        self.frames@.map_values(|f: Frame| frame_view(f))
    }

    /// The environments are well formed and each binds a name at most once.
    pub closed spec fn wf(&self) -> bool {
        &&& well_formed(self.frames())
        &&& forall|i: int| 0 <= i < self.frames@.len() ==> distinct_names(#[trigger] self.frames@[i].bindings@)
    }

    /// A well-formed store is well formed as environments: in particular it has its
    /// root, so that `ROOT_ENV` can always be looked up in it.
    pub proof fn lemma_wf_well_formed(&self)
        requires
            self.wf(),
        ensures
            well_formed(self.frames()),
            self.frames().len() >= 1,
    {
    }

    /// The root environment alone, with no binding.
    pub fn new() -> (envs: Envs)
        ensures
            envs.wf(),
            envs.frames() == seq![FrameView { base: None, vars: Map::empty(), live: true }],
    {
        let mut frames: Vec<Frame> = Vec::new();
        frames.push(Frame { base: None, bindings: Vec::new(), live: true });
        let envs = Envs { frames };
        assert(envs.frames() =~= seq![FrameView { base: None, vars: Map::empty(), live: true }]);
        envs
    }

    /// The number of environments.
    pub fn len(&self) -> (n: usize)
        ensures
            n == self.frames().len(),
    {
        self.frames.len()
    }

    /// A new environment, in use and with no binding, that derives from `base`; its
    /// index is returned.
    pub fn derive(&mut self, base: usize) -> (env: usize)
        requires
            old(self).wf(),
            base < old(self).frames().len(),
        ensures
            final(self).wf(),
            env == old(self).frames().len(),
            final(self).frames() == old(self).frames().push(
                FrameView { base: Some(base as int), vars: Map::empty(), live: true },
            ),
    {
        let env = self.frames.len();
        self.frames.push(Frame { base: Some(base), bindings: Vec::new(), live: true });
        assert(self.frames() =~= old(self).frames().push(
            FrameView { base: Some(base as int), vars: Map::empty(), live: true },
        ));
        env
    }

    /// The position of the binding of `key` in environment `env`.
    fn find(&self, env: usize, key: &String) -> (r: Option<usize>)
        requires
            env < self.frames@.len(),
        ensures
            match r {
                Some(j) => j < self.frames@[env as int].bindings@.len()
                    && self.frames@[env as int].bindings@[j as int].name@ == key@,
                None => forall|j: int|
                    0 <= j < self.frames@[env as int].bindings@.len()
                        ==> self.frames@[env as int].bindings@[j].name@ != key@,
            },
    {
        let bindings = &self.frames[env].bindings;
        let mut j: usize = 0;
        while j < bindings.len()
            invariant
                j <= bindings@.len(),
                bindings@ == self.frames@[env as int].bindings@,
                forall|k: int| 0 <= k < j ==> bindings@[k].name@ != key@,
            decreases bindings@.len() - j,
        {
            if bindings[j].name == *key {
                return Some(j);
            }
            j = j + 1;
        }
        None
    }

    /// Binds `name` to `value` in environment `env`, replacing its binding there.
    pub fn define(&mut self, env: usize, name: &str, value: Expr)
        requires
            old(self).wf(),
            env < old(self).frames().len(),
        ensures
            final(self).wf(),
            final(self).frames() == defined(old(self).frames(), env as int, name@, value@),
    {
        let key = name.to_owned();
        let ghost bs = self.frames@[env as int].bindings@;
        let ghost vv = value@;
        match self.find(env, &key) {
            Some(j) => {
                proof {
                    lemma_bindings_map_update(bs, j as int, Binding { name: key, value });
                }
                self.frames[env].bindings.set(j, Binding { name: key, value });
            },
            None => {
                let b = Binding { name: key, value };
                proof {
                    assert(bs.push(b).drop_last() =~= bs);
                }
                self.frames[env].bindings.push(b);
            },
        }
        assert(self.frames() =~= old(self).frames().update(
            env as int,
            FrameView {
                vars: old(self).frames()[env as int].vars.insert(name@, vv),
                ..old(self).frames()[env as int]
            },
        ));
    }

    /// The value of `name` for code running in environment `env` (see [`resolve`]).
    pub fn lookup(&self, env: usize, name: &str) -> (r: Option<Expr>)
        requires
            self.wf(),
            env < self.frames().len(),
        ensures
            match (r, resolve(self.frames(), env as int, name@)) {
                (Some(e), Some(v)) => e@ == v,
                (None, None) => true,
                _ => false,
            },
    {
        let key = name.to_owned();
        let ghost fs = self.frames();
        let mut e = env;
        loop
            invariant
                self.wf(),
                fs == self.frames(),
                e < fs.len(),
                binder(fs, env as int, name@) == binder(fs, e as int, name@),
                key@ == name@,
            decreases e,
        {
            assert(fs[e as int] == frame_view(self.frames@[e as int]));
            match self.find(e, &key) {
                Some(j) => {
                    proof {
                        lemma_bindings_map_has(self.frames@[e as int].bindings@, j as int);
                    }
                    return Some(self.frames[e].bindings[j].value.clone());
                },
                None => {
                    proof {
                        lemma_bindings_map_lacks(self.frames@[e as int].bindings@, name@);
                    }
                },
            }
            match self.frames[e].base {
                Some(b) => {
                    assert(fs[e as int].base == Some(b as int));
                    e = b;
                },
                None => {
                    return None;
                },
            }
        }
    }

    /// Rebinds `name` to `value` in the environment that binds it for code running in
    /// `env` (see [`binder`]), and tells whether there is one; without one nothing
    /// changes.
    pub fn update(&mut self, env: usize, name: &str, value: Expr) -> (found: bool)
        requires
            old(self).wf(),
            env < old(self).frames().len(),
        ensures
            final(self).wf(),
            found == (binder(old(self).frames(), env as int, name@) is Some),
            match binder(old(self).frames(), env as int, name@) {
                Some(k) => final(self).frames() == defined(old(self).frames(), k, name@, value@),
                None => final(self).frames() == old(self).frames(),
            },
    {
        let key = name.to_owned();
        let ghost fs = self.frames();
        let mut e = env;
        loop
            invariant
                self.wf(),
                fs == self.frames(),
                fs == old(self).frames(),
                e < fs.len(),
                binder(fs, env as int, name@) == binder(fs, e as int, name@),
                key@ == name@,
            decreases e,
        {
            assert(fs[e as int] == frame_view(self.frames@[e as int]));
            match self.find(e, &key) {
                Some(j) => {
                    proof {
                        lemma_bindings_map_has(self.frames@[e as int].bindings@, j as int);
                    }
                    self.define(e, name, value);
                    return true;
                },
                None => {
                    proof {
                        lemma_bindings_map_lacks(self.frames@[e as int].bindings@, name@);
                    }
                },
            }
            match self.frames[e].base {
                Some(b) => {
                    assert(fs[e as int].base == Some(b as int));
                    e = b;
                },
                None => {
                    return false;
                },
            }
        }
    }
}


/// The value of binding `k` of `bs` is a closure that captures environment `b`.
spec fn binds_closure_of(bs: Seq<Binding>, k: int, b: int) -> bool {
    bs[k].value@ matches ExprView::Proc(h, _) && h.env == Some(b)
}

proof fn lemma_reach_matches(g: Seq<Seq<usize>>, frames: Seq<FrameView>, n: nat, x: int)
    requires
        g.len() == frames.len(),
        forall|a: int, b: int| edge(g, a, b) <==> env_edge(frames, a, b),
    ensures
        reach_in(g, ROOT_ENV as int, n, x) == env_reach_in(frames, n, x),
    decreases n,
{
    if n > 0 {
        let m = (n - 1) as nat;
        lemma_reach_matches(g, frames, m, x);
        if reach_in(g, ROOT_ENV as int, n, x) && !reach_in(g, ROOT_ENV as int, m, x) {
            let y = choose|y: int| reach_in(g, ROOT_ENV as int, m, y) && #[trigger] edge(g, y, x);
            lemma_reach_matches(g, frames, m, y);
            assert(env_edge(frames, y, x));
        }
        if env_reach_in(frames, n, x) && !env_reach_in(frames, m, x) {
            let y = choose|y: int| env_reach_in(frames, m, y) && #[trigger] env_edge(frames, y, x);
            lemma_reach_matches(g, frames, m, y);
            assert(edge(g, y, x));
        }
    }
}

proof fn lemma_reachable_matches(g: Seq<Seq<usize>>, frames: Seq<FrameView>, x: int)
    requires
        g.len() == frames.len(),
        forall|a: int, b: int| edge(g, a, b) <==> env_edge(frames, a, b),
    ensures
        reachable(g, ROOT_ENV as int, x) == env_reachable(frames, x),
{
    if reachable(g, ROOT_ENV as int, x) {
        let n = choose|n: nat| reach_in(g, ROOT_ENV as int, n, x);
        lemma_reach_matches(g, frames, n, x);
    }
    if env_reachable(frames, x) {
        let n = choose|n: nat| env_reach_in(frames, n, x);
        lemma_reach_matches(g, frames, n, x);
    }
}

/// `row` holds `c`.
spec fn row_has(row: Seq<usize>, c: int) -> bool {
    exists|k: int| 0 <= k < row.len() && row[k] == c
}

/// One of the first `j` bindings of `bs` is a closure that captures `c`.
spec fn closure_before(bs: Seq<Binding>, j: int, c: int) -> bool {
    exists|k: int| 0 <= k < j && #[trigger] binds_closure_of(bs, k, c)
}

impl Envs {
    /// The environments that the closures bound in environment `a` capture.
    fn captured(&self, a: usize) -> (row: Vec<usize>)
        requires
            self.wf(),
            a < self.frames@.len(),
        ensures
            forall|k: int| 0 <= k < row@.len() ==> #[trigger] row@[k] < self.frames@.len(),
            forall|c: int|
                #![trigger row_has(row@, c)]
                row_has(row@, c) <==> captures(self.frames(), a as int, c),
    {
        let n = self.frames.len();
        let ghost fs = self.frames();
        let bindings = &self.frames[a].bindings;
        let ghost bs = bindings@;
        let mut row: Vec<usize> = Vec::new();
        let mut j: usize = 0;
        while j < bindings.len()
            invariant
                j <= bs.len(),
                bs == bindings@,
                bs == self.frames@[a as int].bindings@,
                n == self.frames@.len(),
                forall|k: int| 0 <= k < row@.len() ==> #[trigger] row@[k] < n,
                forall|c: int|
                    #![trigger row_has(row@, c)]
                    #![trigger closure_before(bs, j as int, c)]
                    row_has(row@, c) <==> (0 <= c < n && closure_before(bs, j as int, c)),
            decreases bs.len() - j,
        {
            let ghost before = row@;
            let mut pushed = false;
            match &bindings[j].value {
                Expr::Proc(h, _) => match h.env {
                    Some(b) => {
                        if b < n {
                            row.push(b);
                            pushed = true;
                        }
                    },
                    None => {},
                },
                _ => {},
            }
            proof {
                assert forall|c: int|
                    #![trigger row_has(row@, c)]
                    #![trigger closure_before(bs, j + 1, c)]
                    row_has(row@, c) <==> (0 <= c < n && closure_before(bs, j + 1, c)) by {
                    if row_has(row@, c) {
                        let k = choose|k: int| 0 <= k < row@.len() && row@[k] == c;
                        if k < before.len() {
                            assert(row_has(before, c));
                            let m = choose|m: int| 0 <= m < j && #[trigger] binds_closure_of(bs, m, c);
                            assert(binds_closure_of(bs, m, c));
                        } else {
                            assert(binds_closure_of(bs, j as int, c));
                        }
                    }
                    if 0 <= c < n && closure_before(bs, j + 1, c) {
                        let k = choose|k: int| 0 <= k < j + 1 && #[trigger] binds_closure_of(bs, k, c);
                        if k < j {
                            assert(closure_before(bs, j as int, c));
                            assert(row_has(before, c));
                            let i = choose|i: int| 0 <= i < before.len() && before[i] == c;
                            assert(row@[i] == c);
                        } else {
                            assert(pushed);
                            assert(row@[before.len() as int] == c);
                        }
                    }
                }
            }
            j = j + 1;
        }
        proof {
            assert(fs[a as int] == frame_view(self.frames@[a as int]));
            assert(distinct_names(bs));
            assert forall|c: int|
                #![trigger row_has(row@, c)]
                row_has(row@, c) <==> captures(fs, a as int, c) by {
                if row_has(row@, c) {
                    assert(closure_before(bs, bs.len() as int, c));
                    let k = choose|k: int| 0 <= k < bs.len() && #[trigger] binds_closure_of(bs, k, c);
                    lemma_bindings_map_has(bs, k);
                    assert(fs[a as int].vars[bs[k].name@] == bs[k].value@);
                }
                if captures(fs, a as int, c) {
                    let nm = choose|nm: Seq<char>|
                        #![trigger fs[a as int].vars[nm]]
                        fs[a as int].vars.contains_key(nm) && (fs[a as int].vars[nm] matches ExprView::Proc(
                            h,
                            _,
                        ) && h.env == Some(c));
                    lemma_bindings_map_keys(bs, nm);
                    let k = choose|k: int| 0 <= k < bs.len() && bs[k].name@ == nm;
                    lemma_bindings_map_has(bs, k);
                    assert(binds_closure_of(bs, k, c));
                    assert(closure_before(bs, bs.len() as int, c));
                }
            }
        }
        row
    }

    /// For each environment, the environments that it keeps alive: those that the
    /// closures bound in it capture, and the one it derives from.
    pub fn references(&self) -> (refs: Vec<Vec<usize>>)
        requires
            self.wf(),
        ensures
            refs@.len() == self.frames().len(),
            well_formed_refs(refs@.map_values(|r: Vec<usize>| r@)),
            forall|a: int, b: int|
                edge(refs@.map_values(|r: Vec<usize>| r@), a, b) <==> env_edge(self.frames(), a, b),
    {
        let n = self.frames.len();
        let ghost fs = self.frames();
        let mut refs: Vec<Vec<usize>> = Vec::new();
        let mut a: usize = 0;
        while a < n
            invariant
                a <= n,
                n == self.frames@.len(),
                fs == self.frames(),
                self.wf(),
                refs@.len() == a,
                forall|i: int, k: int| 0 <= i < a && 0 <= k < refs@[i]@.len() ==> #[trigger] refs@[i]@[k] < n,
                forall|i: int, c: int|
                    #![trigger row_has(refs@[i]@, c)]
                    0 <= i < a ==> (row_has(refs@[i]@, c) <==> env_edge(fs, i, c)),
            decreases n - a,
        {
            let mut row = self.captured(a);
            let ghost before = row@;
            assert(fs[a as int] == frame_view(self.frames@[a as int]));
            match self.frames[a].base {
                Some(b) => {
                    row.push(b);
                    proof {
                        assert forall|c: int|
                            #![trigger row_has(row@, c)]
                            row_has(row@, c) <==> env_edge(fs, a as int, c) by {
                            if row_has(row@, c) {
                                let k = choose|k: int| 0 <= k < row@.len() && row@[k] == c;
                                if k < before.len() {
                                    assert(row_has(before, c));
                                }
                            }
                            if captures(fs, a as int, c) {
                                assert(row_has(before, c));
                                let k = choose|k: int| 0 <= k < before.len() && before[k] == c;
                                assert(row@[k] == c);
                            }
                            if fs[a as int].base == Some(c) {
                                assert(row@[before.len() as int] == c);
                            }
                        }
                    }
                },
                None => {},
            }
            refs.push(row);
            a = a + 1;
        }
        proof {
            let g = refs@.map_values(|r: Vec<usize>| r@);
            assert forall|i: int, k: int| 0 <= i < g.len() && 0 <= k < g[i].len() implies #[trigger] g[i][k] < g.len() by {
                assert(refs@[i]@[k] < n);
            }
            assert forall|x: int, b: int| edge(g, x, b) <==> env_edge(fs, x, b) by {
                if 0 <= x < g.len() {
                    assert(g[x] == refs@[x]@);
                    assert(row_has(refs@[x]@, b) <==> env_edge(fs, x, b));
                    if edge(g, x, b) {
                        let j = choose|j: int| 0 <= j < g[x].len() && g[x][j] == b;
                        assert(row_has(refs@[x]@, b));
                    }
                    if env_edge(fs, x, b) {
                        assert(row_has(refs@[x]@, b));
                    }
                }
            }
        }
        refs
    }

    /// The number of environments in use that the root cannot reach.
    pub fn count_unreachable(&self) -> (count: usize)
        requires
            self.wf(),
        ensures
            count == unreachable_count(self.frames(), self.frames().len() as int),
    {
        let ghost fs = self.frames();
        let refs = self.references();
        let marks = gc_mark(&refs, ROOT_ENV);
        proof {
            assert forall|x: int| 0 <= x < fs.len() implies (marks@[x] <==> env_reachable(fs, x)) by {
                lemma_reachable_matches(refs@.map_values(|r: Vec<usize>| r@), fs, x);
            }
        }
        let mut count: usize = 0;
        let mut i: usize = 0;
        while i < self.frames.len()
            invariant
                fs == self.frames(),
                marks@.len() == fs.len(),
                i <= fs.len(),
                forall|x: int| 0 <= x < fs.len() ==> (marks@[x] <==> env_reachable(fs, x)),
                count == unreachable_count(fs, i as int),
                count <= i,
            decreases fs.len() - i,
        {
            assert(fs[i as int].live == self.frames@[i as int].live);
            if self.frames[i].live && !marks[i] {
                count = count + 1;
            }
            i = i + 1;
        }
        count
    }

    /// Empties the environments in use that the root cannot reach and marks them
    /// unused; the others do not change.
    pub fn collect(&mut self)
        requires
            old(self).wf(),
        ensures
            final(self).wf(),
            final(self).frames() == collected(old(self).frames()),
    {
        let ghost fs = self.frames();
        let refs = self.references();
        let marks = gc_mark(&refs, ROOT_ENV);
        proof {
            assert forall|x: int| 0 <= x < fs.len() implies (marks@[x] <==> env_reachable(fs, x)) by {
                lemma_reachable_matches(refs@.map_values(|r: Vec<usize>| r@), fs, x);
            }
        }
        let n = self.frames.len();
        let mut i: usize = 0;
        while i < n
            invariant
                n == fs.len(),
                self.frames@.len() == n,
                fs == old(self).frames(),
                self.wf(),
                marks@.len() == n,
                i <= n,
                forall|x: int| 0 <= x < n ==> (marks@[x] <==> env_reachable(fs, x)),
                forall|x: int| 0 <= x < i ==> #[trigger] self.frames()[x] == if fs[x].live && !env_reachable(fs, x) {
                    FrameView { vars: Map::empty(), live: false, ..fs[x] }
                } else {
                    fs[x]
                },
                forall|x: int| i <= x < n ==> #[trigger] self.frames()[x] == fs[x],
                self.frames().len() == n,
            decreases n - i,
        {
            if self.frames[i].live && !marks[i] {
                let ghost before = self.frames();
                self.frames[i].bindings = Vec::new();
                self.frames[i].live = false;
                proof {
                    assert(bindings_map(Seq::<Binding>::empty()) =~= Map::empty());
                    assert forall|x: int| 0 <= x < n && x != i implies #[trigger] self.frames()[x] == before[x] by {}
                    assert(distinct_names(self.frames@[i as int].bindings@));
                }
            }
            i = i + 1;
        }
        assert(self.frames() =~= collected(fs));
    }
}

/// The environments after `name` is bound to `value` in `env`.
pub open spec fn defined(frames: Seq<FrameView>, env: int, name: Seq<char>, value: ExprView) -> Seq<FrameView> {
    frames.update(env, FrameView { vars: frames[env].vars.insert(name, value), ..frames[env] })
}

/// What a definition binds is what is found: after `name` is bound to `value` in
/// `env`, looking `name` up from `env` gives `value`.
pub proof fn lemma_lookup_after_define(frames: Seq<FrameView>, env: int, name: Seq<char>, value: ExprView)
    requires
        0 <= env < frames.len(),
    ensures
        resolve(defined(frames, env, name, value), env, name) == Some(value),
{
}

proof fn lemma_binder_other_name(
    frames: Seq<FrameView>,
    env: int,
    name: Seq<char>,
    value: ExprView,
    e: int,
    other: Seq<char>,
)
    requires
        0 <= env < frames.len(),
        other != name,
    ensures
        binder(defined(frames, env, name, value), e, other) == binder(frames, e, other),
    decreases e,
{
    let g = defined(frames, env, name, value);
    if 0 <= e < frames.len() && !frames[e].vars.contains_key(other) {
        match frames[e].base {
            Some(b) => if 0 <= b < e {
                lemma_binder_other_name(frames, env, name, value, b, other);
            },
            None => {},
        }
    }
}

/// A definition changes no other name: after `name` is bound in `env`, looking up
/// any other name from any environment gives what it gave before.
pub proof fn lemma_define_keeps_other_names(
    frames: Seq<FrameView>,
    env: int,
    name: Seq<char>,
    value: ExprView,
    e: int,
    other: Seq<char>,
)
    requires
        0 <= env < frames.len(),
        other != name,
    ensures
        resolve(defined(frames, env, name, value), e, other) == resolve(frames, e, other),
{
    lemma_binder_other_name(frames, env, name, value, e, other);
    lemma_binder_is_binding(frames, e, other);
}

proof fn lemma_binder_earlier(frames: Seq<FrameView>, env: int, name: Seq<char>, value: ExprView, e: int, n: Seq<char>)
    requires
        0 <= env < frames.len(),
        e < env,
    ensures
        binder(defined(frames, env, name, value), e, n) == binder(frames, e, n),
    decreases e,
{
    if 0 <= e < frames.len() && !frames[e].vars.contains_key(n) {
        match frames[e].base {
            Some(b) => if 0 <= b < e {
                lemma_binder_earlier(frames, env, name, value, b, n);
            },
            None => {},
        }
    }
}

/// A definition is seen only from its environment and those derived from it: the
/// environments made before `env` (the one it derives from among them) look every
/// name up as before.
pub proof fn lemma_define_invisible_to_earlier(
    frames: Seq<FrameView>,
    env: int,
    name: Seq<char>,
    value: ExprView,
    e: int,
    n: Seq<char>,
)
    requires
        0 <= env < frames.len(),
        0 <= e < env,
    ensures
        resolve(defined(frames, env, name, value), e, n) == resolve(frames, e, n),
{
    lemma_binder_earlier(frames, env, name, value, e, n);
    lemma_binder_is_binding(frames, e, n);
}

proof fn lemma_binder_after_update(frames: Seq<FrameView>, k: int, name: Seq<char>, value: ExprView, e: int, n: Seq<char>)
    requires
        0 <= k < frames.len(),
        frames[k].vars.contains_key(name),
    ensures
        binder(defined(frames, k, name, value), e, n) == binder(frames, e, n),
    decreases e,
{
    if 0 <= e < frames.len() && !frames[e].vars.contains_key(n) {
        match frames[e].base {
            Some(b) => if 0 <= b < e {
                lemma_binder_after_update(frames, k, name, value, b, n);
            },
            None => {},
        }
    }
}

/// What an assignment stores is what is found: when `name` is bound for code running
/// in `env`, rebinding it in the environment that binds it (as [`Envs::update`]
/// does) makes looking it up from `env` give the new value, and changes which
/// environment binds any name for no environment.
pub proof fn lemma_lookup_after_update(frames: Seq<FrameView>, env: int, name: Seq<char>, value: ExprView)
    requires
        binder(frames, env, name) is Some,
    ensures
        resolve(defined(frames, binder(frames, env, name)->0, name, value), env, name) == Some(value),
        forall|e: int, n: Seq<char>|
            binder(defined(frames, binder(frames, env, name)->0, name, value), e, n) == #[trigger] binder(
                frames,
                e,
                n,
            ),
{
    let k = binder(frames, env, name)->0;
    lemma_binder_is_binding(frames, env, name);
    assert forall|e: int, n: Seq<char>|
        binder(defined(frames, k, name, value), e, n) == #[trigger] binder(frames, e, n) by {
        lemma_binder_after_update(frames, k, name, value, e, n);
    }
}

proof fn lemma_binder_is_binding(frames: Seq<FrameView>, env: int, name: Seq<char>)
    ensures
        binder(frames, env, name) matches Some(k) ==> 0 <= k <= env && k < frames.len()
            && frames[k].vars.contains_key(name),
    decreases env,
{
    if 0 <= env < frames.len() && !frames[env].vars.contains_key(name) {
        match frames[env].base {
            Some(b) => if 0 <= b < env {
                lemma_binder_is_binding(frames, b, name);
            },
            None => {},
        }
    }
}

/// The environments after a collection (see [`Envs::collect`]).
pub open spec fn collected(frames: Seq<FrameView>) -> Seq<FrameView> {
    Seq::new(
        frames.len(),
        |i: int|
            if frames[i].live && !env_reachable(frames, i) {
                FrameView { vars: Map::empty(), live: false, ..frames[i] }
            } else {
                frames[i]
            },
    )
}

proof fn lemma_collected_reach_in(frames: Seq<FrameView>, n: nat, x: int)
    ensures
        env_reach_in(collected(frames), n, x) == env_reach_in(frames, n, x),
    decreases n,
{
    let h = collected(frames);
    if n > 0 {
        let m = (n - 1) as nat;
        lemma_collected_reach_in(frames, m, x);
        if env_reach_in(h, n, x) && !env_reach_in(h, m, x) {
            let y = choose|y: int| env_reach_in(h, m, y) && #[trigger] env_edge(h, y, x);
            lemma_collected_reach_in(frames, m, y);
            assert(env_reachable(frames, y));
            assert(h[y] == frames[y]);
            assert(env_edge(frames, y, x));
        }
        if env_reach_in(frames, n, x) && !env_reach_in(frames, m, x) {
            let y = choose|y: int| env_reach_in(frames, m, y) && #[trigger] env_edge(frames, y, x);
            lemma_collected_reach_in(frames, m, y);
            assert(env_reachable(frames, y));
            assert(h[y] == frames[y]);
            assert(env_edge(h, y, x));
        }
    }
}

/// A collection leaves nothing to collect: afterwards every environment in use can
/// be reached, those that could be reached before can be reached still, and the
/// count of unreachable environments is zero.
pub proof fn lemma_collect_leaves_none(frames: Seq<FrameView>)
    ensures
        forall|x: int| env_reachable(collected(frames), x) == #[trigger] env_reachable(frames, x),
        unreachable_count(collected(frames), frames.len() as int) == 0,
{
    assert forall|x: int| env_reachable(collected(frames), x) == #[trigger] env_reachable(frames, x) by {
        if env_reachable(collected(frames), x) {
            let n = choose|n: nat| env_reach_in(collected(frames), n, x);
            lemma_collected_reach_in(frames, n, x);
        }
        if env_reachable(frames, x) {
            let n = choose|n: nat| env_reach_in(frames, n, x);
            lemma_collected_reach_in(frames, n, x);
        }
    }
    lemma_collected_count(frames, frames.len() as int);
}

proof fn lemma_collected_count(frames: Seq<FrameView>, k: int)
    requires
        k <= frames.len(),
        forall|x: int| env_reachable(collected(frames), x) == #[trigger] env_reachable(frames, x),
    ensures
        unreachable_count(collected(frames), k) == 0,
    decreases k,
{
    if k > 0 {
        lemma_collected_count(frames, k - 1);
        assert(env_reachable(collected(frames), k - 1) == env_reachable(frames, k - 1));
    }
}
} // verus!

verus! {

proof fn lemma_env_reach_step(frames: Seq<FrameView>, y: int, x: int)
    requires
        env_reachable(frames, y),
        env_edge(frames, y, x),
    ensures
        env_reachable(frames, x),
{
    let n = choose|n: nat| env_reach_in(frames, n, y);
    assert(env_reach_in(frames, n + 1, x));
}

proof fn lemma_collected_binder(frames: Seq<FrameView>, e: int, name: Seq<char>)
    requires
        env_reachable(frames, e),
    ensures
        binder(collected(frames), e, name) == binder(frames, e, name),
    decreases e,
{
    let h = collected(frames);
    if 0 <= e < frames.len() {
        assert(h[e] == frames[e]);
        if !frames[e].vars.contains_key(name) {
            match frames[e].base {
                Some(b) => if 0 <= b < e {
                    assert(env_edge(frames, e, b));
                    lemma_env_reach_step(frames, e, b);
                    lemma_collected_binder(frames, b, name);
                },
                None => {},
            }
        }
    }
}

/// A collection keeps everything that code which can still run sees: from an
/// environment that the root reaches (the environment of a live closure among
/// them), every name is looked up as before, through the whole chain of
/// environments it derives from.
pub proof fn lemma_collect_keeps_lookups(frames: Seq<FrameView>, e: int, name: Seq<char>)
    requires
        env_reachable(frames, e),
    ensures
        resolve(collected(frames), e, name) == resolve(frames, e, name),
{
    lemma_collected_binder(frames, e, name);
    lemma_binder_is_binding(frames, e, name);
    if binder(frames, e, name) is Some {
        let k = binder(frames, e, name)->0;
        lemma_binder_reaches(frames, e, name);
        assert(collected(frames)[k] == frames[k]);
    }
}

proof fn lemma_binder_reaches(frames: Seq<FrameView>, e: int, name: Seq<char>)
    requires
        env_reachable(frames, e),
    ensures
        binder(frames, e, name) matches Some(k) ==> env_reachable(frames, k),
    decreases e,
{
    if 0 <= e < frames.len() && !frames[e].vars.contains_key(name) {
        match frames[e].base {
            Some(b) => if 0 <= b < e {
                assert(env_edge(frames, e, b));
                lemma_env_reach_step(frames, e, b);
                lemma_binder_reaches(frames, b, name);
            },
            None => {},
        }
    }
}

} // verus!
