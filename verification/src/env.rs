//! Environments: a chain of scopes, each a table from names to values.

use crate::object::{Object, Value};
use crate::text::same_text;
use vstd::prelude::*;
use vstd::string::StringExecFns;

verus! {

/// A scope and the scopes around it. Looking a name up starts in the
/// innermost scope and goes outward; binding a name writes to the innermost
/// scope only.
///
/// A scope keeps its bindings as a list of pairs, the latest binding of a
/// name last: of a hash map with strings for keys the verifier proves
/// nothing. The chain owns its scopes, so a scope has one scope inside it at
/// a time, which is all that evaluation asks for.
pub struct Env {
    outer: Vec<Vec<(String, Object)>>,
    vars: Vec<(String, Object)>,
}

/// The value bound to `name` in the chain of scopes `chain`, whose innermost
/// scope is its last element: that of the innermost scope that binds it.
pub open spec fn lookup(chain: Seq<Map<Seq<char>, Value>>, name: Seq<char>) -> Option<Value>
    decreases chain.len(),
{
    if chain.len() == 0 {
        None
    } else if chain.last().contains_key(name) {
        Some(chain.last()[name])
    } else {
        lookup(chain.drop_last(), name)
    }
}

/// `chain` with `name` bound to `value` in its innermost scope.
pub open spec fn bind(chain: Seq<Map<Seq<char>, Value>>, name: Seq<char>, value: Value) -> Seq<
    Map<Seq<char>, Value>,
> {
    chain.drop_last().push(chain.last().insert(name, value))
}

pub open spec fn value_view(o: Option<Object>) -> Option<Value> {
    match o {
        Some(o) => Some(o@),
        None => None,
    }
}

/// The latest binding of `name` among the first `n` entries.
spec fn find(entries: Seq<(String, Object)>, name: Seq<char>, n: nat) -> Option<Value>
    decreases n,
{
    if n == 0 || n > entries.len() {
        None
    } else if entries[n - 1].0@ == name {
        Some(entries[n - 1].1@)
    } else {
        find(entries, name, (n - 1) as nat)
    }
}

spec fn scope_map(entries: Seq<(String, Object)>) -> Map<Seq<char>, Value> {
    Map::new(
        |k: Seq<char>| find(entries, k, entries.len()) is Some,
        |k: Seq<char>| find(entries, k, entries.len())->0,
    )
}

spec fn chain_of(scopes: Seq<Vec<(String, Object)>>) -> Seq<Map<Seq<char>, Value>> {
    Seq::new(scopes.len(), |i: int| scope_map(scopes[i]@))
}

proof fn lemma_find_prefix(a: Seq<(String, Object)>, b: Seq<(String, Object)>, k: Seq<char>, n: nat)
    requires
        n <= a.len(),
        n <= b.len(),
        forall|j: int| 0 <= j < n ==> a[j] == b[j],
    ensures
        find(a, k, n) == find(b, k, n),
    decreases n,
{
    if n > 0 {
        lemma_find_prefix(a, b, k, (n - 1) as nat);
    }
}

proof fn lemma_find_update(
    old: Seq<(String, Object)>,
    new: Seq<(String, Object)>,
    i: int,
    name: Seq<char>,
    value: Value,
    k: Seq<char>,
    n: nat,
)
    requires
        0 <= i < old.len(),
        new.len() == old.len(),
        forall|j: int| 0 <= j < old.len() && j != i ==> new[j] == old[j],
        old[i].0@ == name,
        new[i].0@ == name,
        new[i].1@ == value,
        forall|j: int| i < j < old.len() ==> old[j].0@ != name,
        n <= old.len(),
    ensures
        find(new, k, n) == if k == name && n > i {
            Some(value)
        } else {
            find(old, k, n)
        },
    decreases n,
{
    if n > 0 {
        lemma_find_update(old, new, i, name, value, k, (n - 1) as nat);
    }
}

fn index_of(entries: &Vec<(String, Object)>, name: &str) -> (r: Option<usize>)
    ensures
        match r {
            Some(i) => i < entries.len() && entries[i as int].0@ == name@ && (forall|j: int|
                i < j < entries.len() ==> entries[j].0@ != name@) && find(
                entries@,
                name@,
                entries.len() as nat,
            ) == Some(entries[i as int].1@),
            None => find(entries@, name@, entries.len() as nat) is None,
        },
{
    let mut i: usize = entries.len();
    while i > 0
        invariant
            i <= entries.len(),
            forall|j: int| i <= j < entries.len() ==> entries[j].0@ != name@,
            find(entries@, name@, entries.len() as nat) == find(entries@, name@, i as nat),
        decreases i,
    {
        i = i - 1;
        if same_text(entries[i].0.as_str(), name) {
            return Some(i);
        }
    }
    None
}

impl View for Env {
    type V = Seq<Map<Seq<char>, Value>>;

    /// The scopes from the outermost to the innermost, each as a map.
    closed spec fn view(&self) -> Seq<Map<Seq<char>, Value>> {
        chain_of(self.outer@).push(scope_map(self.vars@))
    }
}

impl Default for Env {
    fn default() -> (r: Env)
        ensures
            r@ == seq![Map::<Seq<char>, Value>::empty()],
    {
        Env::new()
    }
}

impl Env {
    /// A chain of one empty scope.
    pub fn new() -> (r: Env)
        ensures
            r@ == seq![Map::<Seq<char>, Value>::empty()],
    {
        let r = Env { outer: Vec::new(), vars: Vec::new() };
        assert(scope_map(r.vars@) =~= Map::empty());
        assert(r@ =~= seq![Map::<Seq<char>, Value>::empty()]);
        r
    }

    /// A new empty scope inside `parent`.
    pub fn extend(parent: Env) -> (r: Env)
        ensures
            r@ == parent@.push(Map::empty()),
    {
        let mut r = parent;
        r.enter();
        r
    }

    /// Every chain has at least one scope.
    pub proof fn lemma_depth(&self)
        ensures
            self@.len() >= 1,
    {
    }

    /// Opens a new empty scope inside the innermost one.
    pub fn enter(&mut self)
        ensures
            final(self)@ == old(self)@.push(Map::empty()),
    {
        let mut vars: Vec<(String, Object)> = Vec::new();
        std::mem::swap(&mut vars, &mut self.vars);
        self.outer.push(vars);
        assert(scope_map(self.vars@) =~= Map::empty());
        assert(chain_of(self.outer@) =~= old(self)@);
    }

    /// Closes the innermost scope and drops its bindings. The outermost scope
    /// is never closed.
    pub fn leave(&mut self)
        ensures
            final(self)@ == if old(self)@.len() > 1 {
                old(self)@.drop_last()
            } else {
                old(self)@
            },
    {
        match self.outer.pop() {
            Some(vars) => {
                self.vars = vars;
                assert(self@ =~= old(self)@.drop_last());
            },
            None => {},
        }
    }

    /// The value bound to `name`, from the innermost scope that binds it.
    pub fn get(&self, name: &str) -> (r: Option<Object>)
        ensures
            value_view(r) == lookup(self@, name@),
    {
        match index_of(&self.vars, name) {
            Some(i) => {
                return Some(self.vars[i].1.clone());
            },
            None => {},
        }
        let ghost chain = chain_of(self.outer@);
        assert(self@.drop_last() =~= chain);
        let mut d: usize = self.outer.len();
        assert(chain.take(d as int) =~= chain);
        while d > 0
            invariant
                d <= self.outer.len(),
                chain == chain_of(self.outer@),
                lookup(self@, name@) == lookup(chain.take(d as int), name@),
            decreases d,
        {
            d = d - 1;
            assert(chain.take(d + 1).drop_last() =~= chain.take(d as int));
            assert(chain.take(d + 1).last() == scope_map(self.outer[d as int]@));
            match index_of(&self.outer[d], name) {
                Some(i) => {
                    return Some(self.outer[d][i].1.clone());
                },
                None => {},
            }
        }
        None
    }

    /// Binds `name` to `val` in the innermost scope, in place of what it was
    /// bound to there, if anything.
    pub fn set(&mut self, name: &str, val: Object)
        ensures
            final(self)@ == bind(old(self)@, name@, val@),
    {
        let ghost before = self.vars@;
        let key = String::from_str(name);
        match index_of(&self.vars, name) {
            Some(i) => {
                self.vars.set(i, (key, val));
                assert forall|k: Seq<char>|
                    find(self.vars@, k, self.vars.len() as nat) == (if k == name@ {
                        Some(val@)
                    } else {
                        find(before, k, before.len())
                    }) by {
                    lemma_find_update(before, self.vars@, i as int, name@, val@, k, before.len());
                }
            },
            None => {
                self.vars.push((key, val));
                assert forall|k: Seq<char>|
                    find(self.vars@, k, self.vars.len() as nat) == (if k == name@ {
                        Some(val@)
                    } else {
                        find(before, k, before.len())
                    }) by {
                    lemma_find_prefix(self.vars@, before, k, before.len());
                }
            },
        }
        assert(scope_map(self.vars@) =~= scope_map(before).insert(name@, val@));
        assert(self@ =~= bind(old(self)@, name@, val@));
    }
}

/// A name is bound to what it was last set to.
pub proof fn lemma_lookup_after_bind(
    chain: Seq<Map<Seq<char>, Value>>,
    name: Seq<char>,
    value: Value,
    other: Seq<char>,
)
    requires
        chain.len() > 0,
    ensures
        lookup(bind(chain, name, value), name) == Some(value),
        other != name ==> lookup(bind(chain, name, value), other) == lookup(chain, other),
{
    let bound = bind(chain, name, value);
    assert(bound.drop_last() == chain.drop_last());
}

/// A new scope sees every binding of the scopes around it, and what is bound
/// in it is gone, and nothing else is, once it is closed.
pub proof fn lemma_inner_scope(
    chain: Seq<Map<Seq<char>, Value>>,
    name: Seq<char>,
    value: Value,
    other: Seq<char>,
)
    ensures
        lookup(chain.push(Map::empty()), other) == lookup(chain, other),
        bind(chain.push(Map::empty()), name, value).drop_last() == chain,
{
    let inner = chain.push(Map::empty());
    assert(inner.drop_last() == chain);
    assert(bind(inner, name, value).drop_last() == chain);
}

} // verus!
