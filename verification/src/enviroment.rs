//! The environment: the scopes of a session and the names bound in them.
//!
//! All scopes of a session live in one store and are known by their index
//! in it. The first scope is the root. Every other scope has an enclosing
//! scope, made before it, so that the way outward from any scope ends at a
//! scope without one.

use crate::object::{clone_object, lemma_value_wf_grows, value_wf, Object, Value};
use vstd::hash_map::StringHashMap;
use vstd::prelude::*;

verus! {

/// One scope: its bindings, in a hash map from names to values, and the
/// index of the scope around it.
struct Scope {
    store: StringHashMap<Object>,
    outer: Option<usize>,
}

/// The scopes of a session.
pub struct EnviromentVariables {
    scopes: Vec<Scope>,
}

/// A scope as a mathematical value: what its names are bound to, and the
/// index of the scope around it.
pub struct ScopeView {
    pub store: Map<Seq<char>, Value>,
    pub outer: Option<int>,
}

/// The mathematical value of a scope.
spec fn scope_view(scope: Scope) -> ScopeView {
    ScopeView {
        store: scope.store@.map_values(|value: Object| value@),
        outer: match scope.outer {
            Some(outer) => Some(outer as int),
            None => None,
        },
    }
}

impl View for EnviromentVariables {
    type V = Seq<ScopeView>;

    closed spec fn view(&self) -> Seq<ScopeView> {
        Seq::new(self.scopes@.len(), |i: int| scope_view(self.scopes@[i]))
    }
}

/// The environment of a new session: the root scope, with nothing bound.
pub open spec fn fresh() -> Seq<ScopeView> {
    seq![ScopeView { store: Map::empty(), outer: None }]
}

/// What `name` means in the scope `scope`: its binding there, or else what it
/// means in the enclosing scope; nothing where no scope on the way outward
/// binds it.
pub open spec fn lookup(env: Seq<ScopeView>, scope: int, name: Seq<char>) -> Option<Value>
    decreases scope,
{
    if !(0 <= scope < env.len()) {
        None
    } else if env[scope].store.contains_key(name) {
        Some(env[scope].store[name])
    } else {
        match env[scope].outer {
            Some(outer) => if 0 <= outer < scope {
                lookup(env, outer, name)
            } else {
                None
            },
            None => None,
        }
    }
}

/// The environment with `name` bound to `value` in the scope `scope`, and
/// everything else as it was.
pub open spec fn bind(env: Seq<ScopeView>, scope: int, name: Seq<char>, value: Value) -> Seq<
    ScopeView,
> {
    env.update(
        scope,
        ScopeView { store: env[scope].store.insert(name, value), outer: env[scope].outer },
    )
}

/// The environment with one more scope, empty and enclosed by `outer`.
pub open spec fn extended(env: Seq<ScopeView>, outer: int) -> Seq<ScopeView> {
    env.push(ScopeView { store: Map::empty(), outer: Some(outer) })
}

/// Whether an environment is sound: it has a root, every enclosing scope was
/// made before the scope it encloses, and every value bound in it is sound
/// among its scopes.
pub open spec fn env_wf(env: Seq<ScopeView>) -> bool {
    &&& env.len() >= 1
    &&& forall|i: int|
        0 <= i < env.len() ==> ((#[trigger] env[i]).outer matches Some(outer) ==> 0 <= outer < i)
    &&& forall|i: int, name: Seq<char>|
        0 <= i < env.len() && (#[trigger] env[i]).store.contains_key(name) ==> value_wf(
            #[trigger] env[i].store[name],
            env.len() as int,
        )
}

/// Binding a sound value in a scope of a sound environment keeps it sound.
pub proof fn lemma_bind_wf(env: Seq<ScopeView>, scope: int, name: Seq<char>, value: Value)
    requires
        env_wf(env),
        0 <= scope < env.len(),
        value_wf(value, env.len() as int),
    ensures
        env_wf(bind(env, scope, name, value)),
{
    let after = bind(env, scope, name, value);
    assert forall|i: int, n: Seq<char>|
        0 <= i < after.len() && (#[trigger] after[i]).store.contains_key(n) implies value_wf(
        #[trigger] after[i].store[n],
        after.len() as int,
    ) by {
        if i == scope && n == name {
        } else {
            assert(env[i].store.contains_key(n));
        }
    }
    assert forall|i: int| 0 <= i < after.len() implies ((#[trigger] after[i]).outer matches Some(
        outer,
    ) ==> 0 <= outer < i) by {
        assert(after[i].outer == env[i].outer);
    }
}

/// A new scope inside a scope of a sound environment keeps it sound.
pub proof fn lemma_extended_wf(env: Seq<ScopeView>, outer: int)
    requires
        env_wf(env),
        0 <= outer < env.len(),
    ensures
        env_wf(extended(env, outer)),
{
    let after = extended(env, outer);
    assert forall|i: int, n: Seq<char>|
        0 <= i < after.len() && (#[trigger] after[i]).store.contains_key(n) implies value_wf(
        #[trigger] after[i].store[n],
        after.len() as int,
    ) by {
        if i < env.len() {
            assert(env[i].store.contains_key(n));
            lemma_value_wf_grows(env[i].store[n], env.len() as int, after.len() as int);
        }
    }
    assert forall|i: int| 0 <= i < after.len() implies ((#[trigger] after[i]).outer matches Some(
        o,
    ) ==> 0 <= o < i) by {
        if i < env.len() {
            assert(after[i].outer == env[i].outer);
        }
    }
}

/// What a name means in a sound environment is sound among its scopes.
pub proof fn lemma_lookup_wf(env: Seq<ScopeView>, scope: int, name: Seq<char>)
    requires
        env_wf(env),
    ensures
        lookup(env, scope, name) matches Some(value) ==> value_wf(value, env.len() as int),
    decreases scope,
{
    if 0 <= scope < env.len() && !env[scope].store.contains_key(name) {
        match env[scope].outer {
            Some(outer) => {
                if 0 <= outer < scope {
                    lemma_lookup_wf(env, outer, name);
                }
            },
            None => {},
        }
    }
}

/// The view of an optional value.
pub open spec fn found_view(found: Option<Object>) -> Option<Value> {
    match found {
        Some(value) => Some(value@),
        None => None,
    }
}

impl EnviromentVariables {
    /// The environment of a new session.
    pub fn new() -> (env: Self)
        ensures
            env@ == fresh(),
            env_wf(env@),
    {
        let mut scopes: Vec<Scope> = Vec::new();
        scopes.push(Scope { store: StringHashMap::new(), outer: None });
        let env = EnviromentVariables { scopes };
        proof {
            assert(scope_view(env.scopes@[0]).store =~= Map::empty());
            assert(env@ =~= fresh());
        }
        env
    }

    /// The number of scopes.
    pub fn scope_count(&self) -> (count: usize)
        ensures
            count == self@.len(),
    {
        self.scopes.len()
    }

    /// Makes a new, empty scope inside the scope `outer`, and gives its
    /// index.
    pub fn extend(&mut self, outer: usize) -> (scope: usize)
        ensures
            final(self)@ == extended(old(self)@, outer as int),
            scope == old(self)@.len(),
            env_wf(old(self)@) && outer < old(self)@.len() ==> env_wf(final(self)@),
    {
        proof {
            if env_wf(self@) && outer < self@.len() {
                lemma_extended_wf(self@, outer as int);
            }
        }
        let scope = self.scopes.len();
        self.scopes.push(Scope { store: StringHashMap::new(), outer: Some(outer) });
        proof {
            assert(scope_view(self.scopes@[scope as int]).store =~= Map::empty());
            assert(self@ =~= extended(old(self)@, outer as int));
        }
        scope
    }

    /// What `name` means in the scope `scope`, if anything.
    pub fn get(&self, scope: usize, name: &str) -> (found: Option<Object>)
        ensures
            found_view(found) == lookup(self@, scope as int, name@),
            env_wf(self@) ==> (found matches Some(value) ==> value_wf(
                value@,
                self@.len() as int,
            )),
    {
        proof {
            if env_wf(self@) {
                lemma_lookup_wf(self@, scope as int, name@);
            }
        }
        let mut current = scope;
        loop
            invariant
                lookup(self@, current as int, name@) == lookup(self@, scope as int, name@),
            decreases current,
        {
            if current >= self.scopes.len() {
                return None;
            }
            proof {
                assert(self@[current as int] == scope_view(self.scopes@[current as int]));
            }
            match self.scopes[current].store.get(name) {
                Some(value) => {
                    return Some(clone_object(value));
                },
                None => {},
            }
            match self.scopes[current].outer {
                Some(outer) => {
                    if outer < current {
                        current = outer;
                    } else {
                        return None;
                    }
                },
                None => {
                    return None;
                },
            }
        }
    }

    /// Binds `name` to `value` in the scope `scope`. An earlier binding of
    /// the name in that scope is replaced; bindings in other scopes stay.
    pub fn set(&mut self, scope: usize, name: &str, value: Object)
        requires
            scope < old(self)@.len(),
        ensures
            final(self)@ == bind(old(self)@, scope as int, name@, value@),
            env_wf(old(self)@) && value_wf(value@, old(self)@.len() as int) ==> env_wf(
                final(self)@,
            ),
    {
        proof {
            if env_wf(self@) && value_wf(value@, self@.len() as int) {
                lemma_bind_wf(self@, scope as int, name@, value@);
            }
        }
        let ghost before = self.scopes@[scope as int];
        self.scopes[scope].store.insert(String::from_str(name), value);
        proof {
            let after = self.scopes@[scope as int];
            assert(after.outer == before.outer);
            assert(scope_view(after).store =~= scope_view(before).store.insert(name@, value@));
            assert(self@ =~= bind(old(self)@, scope as int, name@, value@));
        }
    }
}

} // verus!
