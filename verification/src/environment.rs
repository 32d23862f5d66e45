//! The scopes of a run: names bound to values, each scope inside the scope
//! that it was made in.

use vstd::prelude::*;
use vstd::string::*;
use crate::common::{LoxType, Token, Value};
use crate::interpreter::RuntimeException;
use crate::names::NameMap;
use crate::text::{decimal, decimal_digits};

verus! {

/// One scope: what its names are bound to, the scope around it, and whether a
/// function was declared in it, which keeps the scope for its calls.
pub struct Scope {
    pub bindings: Map<Seq<char>, Value>,
    pub parent: Option<usize>,
    pub captured: bool,
}

#[derive(Debug)]
struct Frame {
    values: NameMap<LoxType>,
    parent: Option<usize>,
    captured: bool,
}

/// The scopes of a run. A scope is known by its index; scope 0 is the global
/// scope. Each scope but the global one lies in a scope made before it, so
/// every chain of scopes ends in a scope without parent. Scopes are shared by
/// index: what is defined or assigned through one holder of an index is seen by
/// every other.
#[derive(Debug)]
pub struct Environment {
    scopes: Vec<Frame>,
}

/// The error of reading a variable that no scope of the chain binds.
pub open spec fn undefined_variable(name: Seq<char>) -> Seq<char> {
    "Attempted to access undefined variable "@ + name + "."@
}

/// The error of assigning to a variable that no scope of the chain binds.
pub open spec fn undefined_assignment(name: Seq<char>) -> Seq<char> {
    "Attempted to assign to undefined variable "@ + name
}

/// The error of reading a variable that the scope at the given distance does
/// not bind.
pub open spec fn missing_at_depth(name: Seq<char>, distance: nat) -> Seq<char> {
    "No variable with name "@ + name + " at depth "@ + decimal_digits(distance)
}

/// The error of assigning to a variable that the scope at the given distance
/// does not bind.
pub open spec fn unassignable_at_depth(name: Seq<char>) -> Seq<char> {
    "Unable to assign to undefined variable "@ + name
}

impl View for Environment {
    type V = Seq<Scope>;

    closed spec fn view(&self) -> Seq<Scope> {
        Seq::new(
            self.scopes@.len(),
            |i: int|
                Scope {
                    bindings: self.scopes@[i].values@.map_values(|v: LoxType| v@),
                    parent: self.scopes@[i].parent,
                    captured: self.scopes@[i].captured,
                },
        )
    }
}

/// Every scope's parent was made before the scope.
pub open spec fn chained(scopes: Seq<Scope>) -> bool {
    forall|i: int| 0 <= i < scopes.len() ==> (#[trigger] scopes[i].parent matches Some(p) ==> p < i)
}

/// What `name` is bound to as seen from `scope`: the binding in the nearest
/// scope of the chain that has one.
pub open spec fn lookup(scopes: Seq<Scope>, scope: int, name: Seq<char>) -> Option<Value>
    decreases scope,
{
    if 0 <= scope < scopes.len() {
        if scopes[scope].bindings.contains_key(name) {
            Some(scopes[scope].bindings[name])
        } else {
            match scopes[scope].parent {
                Some(p) if p < scope => lookup(scopes, p as int, name),
                _ => None,
            }
        }
    } else {
        None
    }
}

/// The nearest scope of the chain from `scope` that binds `name`.
pub open spec fn holder(scopes: Seq<Scope>, scope: int, name: Seq<char>) -> Option<int>
    decreases scope,
{
    if 0 <= scope < scopes.len() {
        if scopes[scope].bindings.contains_key(name) {
            Some(scope)
        } else {
            match scopes[scope].parent {
                Some(p) if p < scope => holder(scopes, p as int, name),
                _ => None,
            }
        }
    } else {
        None
    }
}

/// The scope `distance` steps up the chain from `scope`.
pub open spec fn ancestor(scopes: Seq<Scope>, scope: int, distance: nat) -> Option<int>
    decreases distance,
{
    if 0 <= scope < scopes.len() {
        if distance == 0 {
            Some(scope)
        } else {
            match scopes[scope].parent {
                Some(p) if p < scope => ancestor(scopes, p as int, (distance - 1) as nat),
                _ => None,
            }
        }
    } else {
        None
    }
}

/// A new scope inside `parent`: nothing is bound in it.
pub open spec fn fresh(parent: Option<usize>) -> Scope {
    Scope { bindings: Map::empty(), parent, captured: false }
}

/// The scopes after a function was declared in `scope`.
pub open spec fn capturing(scopes: Seq<Scope>, scope: int) -> Seq<Scope> {
    scopes.update(scope, Scope { captured: true, ..scopes[scope] })
}

/// The scopes after the run went back to the scope `keep`: the scopes made
/// after `keep` are given up, from the last one down to the first in which a
/// function was declared.
pub open spec fn released(scopes: Seq<Scope>, keep: int) -> Seq<Scope>
    decreases scopes.len(),
{
    if scopes.len() - 1 > keep && keep >= 0 && !scopes.last().captured {
        released(scopes.drop_last(), keep)
    } else {
        scopes
    }
}

/// The scopes after `name` was bound to `value` in `scope`.
pub open spec fn bound(scopes: Seq<Scope>, scope: int, name: Seq<char>, value: Value) -> Seq<
    Scope,
> {
    scopes.update(
        scope,
        Scope { bindings: scopes[scope].bindings.insert(name, value), ..scopes[scope] },
    )
}

impl Environment {
    /// The frames are well formed and chained.
    pub closed spec fn wf(&self) -> bool {
        &&& forall|i: int| 0 <= i < self.scopes@.len() ==> (#[trigger] self.scopes@[i]).values.wf()
        &&& chained(self@)
        &&& self.scopes@.len() >= 1
    }

    /// A well-formed environment has the global scope, and its scopes are chained.
    pub proof fn lemma_wf(&self)
        requires
            self.wf(),
        ensures
            chained(self@),
            self@.len() >= 1,
    {
    }

    /// The scopes of an environment can be counted.
    pub proof fn lemma_counted(&self)
        ensures
            self@.len() <= usize::MAX,
    {
        vstd::std_specs::vec::axiom_spec_len(&self.scopes);
    }

    /// An environment that holds the global scope, with nothing defined in it.
    pub fn new() -> (r: Self)
        ensures
            r.wf(),
            r@ == seq![fresh(None)],
    {
        let mut scopes: Vec<Frame> = Vec::new();
        scopes.push(Frame { values: NameMap::new(), parent: None, captured: false });
        let r = Environment { scopes };
        assert(Map::<Seq<char>, LoxType>::empty().map_values(|v: LoxType| v@) =~= Map::<
            Seq<char>,
            Value,
        >::empty());
        assert(r@ =~= seq![fresh(None)]);
        r
    }

    /// The number of scopes.
    pub fn len(&self) -> (n: usize)
        ensures
            n == self@.len(),
    {
        self.scopes.len()
    }

    /// Makes an empty scope inside `parent` and returns its index.
    pub fn child(&mut self, parent: usize) -> (r: usize)
        requires
            old(self).wf(),
            parent < old(self)@.len(),
        ensures
            final(self).wf(),
            r == old(self)@.len(),
            final(self)@ == old(self)@.push(fresh(Some(parent))),
    {
        let r = self.scopes.len();
        self.scopes.push(Frame { values: NameMap::new(), parent: Some(parent), captured: false });
        assert(Map::<Seq<char>, LoxType>::empty().map_values(|v: LoxType| v@) =~= Map::<
            Seq<char>,
            Value,
        >::empty());
        assert(self@ =~= old(self)@.push(fresh(Some(parent))));
        r
    }

    /// Notes that a function was declared in `scope`.
    pub fn capture(&mut self, scope: usize)
        requires
            old(self).wf(),
            scope < old(self)@.len(),
        ensures
            final(self).wf(),
            final(self)@.len() == old(self)@.len(),
            final(self)@ == capturing(old(self)@, scope as int),
    {
        let ghost before = *self;
        self.scopes[scope].captured = true;
        proof {
            assert(forall|i: int|
                0 <= i < self.scopes@.len() && i != scope ==> self.scopes@[i] == before.scopes@[i]);
            assert(self@ =~= capturing(before@, scope as int));
            assert forall|i: int| 0 <= i < self@.len() implies (#[trigger] self@[i].parent matches Some(
                p,
            ) ==> p < i) by {
                assert(before@[i].parent == self@[i].parent);
            }
        }
    }

    /// Gives up the scopes made after `keep`, from the last one down to the
    /// first in which a function was declared.
    pub fn release(&mut self, keep: usize)
        requires
            old(self).wf(),
            keep < old(self)@.len(),
        ensures
            final(self).wf(),
            keep < final(self)@.len() <= old(self)@.len(),
            final(self)@ == released(old(self)@, keep as int),
    {
        while self.scopes.len() - 1 > keep && !self.scopes[self.scopes.len() - 1].captured
            invariant
                self.wf(),
                keep < self@.len() <= old(self)@.len(),
                released(old(self)@, keep as int) == released(self@, keep as int),
            decreases self.scopes@.len(),
        {
            let ghost before = *self;
            self.scopes.pop();
            proof {
                assert(self@ =~= before@.drop_last());
                assert forall|i: int| 0 <= i < self@.len() implies (#[trigger] self@[i].parent matches Some(
                    p,
                ) ==> p < i) by {
                    assert(before@[i].parent == self@[i].parent);
                }
            }
        }
    }

    /// The scope around `scope`.
    pub fn parent(&self, scope: usize) -> (r: Option<usize>)
        requires
            scope < self@.len(),
        ensures
            r == self@[scope as int].parent,
    {
        self.scopes[scope].parent
    }

    /// Binds `name` to `value` in `scope`, whether or not it was bound there.
    pub fn define(&mut self, scope: usize, name: String, value: LoxType)
        requires
            old(self).wf(),
            scope < old(self)@.len(),
        ensures
            final(self).wf(),
            final(self)@.len() == old(self)@.len(),
            final(self)@ == bound(old(self)@, scope as int, name@, value@),
    {
        let ghost before = *self;
        self.scopes[scope].values.insert(name, value);
        proof {
            assert(forall|i: int|
                0 <= i < self.scopes@.len() && i != scope ==> self.scopes@[i] == before.scopes@[i]);
            assert(self.scopes@[scope as int].values@.map_values(|v: LoxType| v@)
                =~= before.scopes@[scope as int].values@.map_values(|v: LoxType| v@).insert(
                name@,
                value@,
            ));
            assert(self@ =~= bound(before@, scope as int, name@, value@));
            assert forall|i: int| 0 <= i < self@.len() implies (#[trigger] self@[i].parent matches Some(
                p,
            ) ==> p < i) by {
                assert(before@[i].parent == self@[i].parent);
            }
        }
    }

    /// The nearest scope of the chain from `scope` that binds `name`.
    fn find(&self, scope: usize, name: &String) -> (r: Option<usize>)
        requires
            self.wf(),
            scope < self@.len(),
        ensures
            holder(self@, scope as int, name@) == match r {
                Some(at) => Some(at as int),
                None => None,
            },
            r is Some ==> r->0 < self@.len() && self@[r->0 as int].bindings.contains_key(name@)
                && lookup(self@, scope as int, name@) == Some(self@[r->0 as int].bindings[name@])
                && self.scopes@[r->0 as int].values@.contains_key(name@)
                && self.scopes@[r->0 as int].values@[name@]@ == self@[r->0 as int].bindings[name@],
            r is None ==> lookup(self@, scope as int, name@) is None,
        decreases scope,
    {
        if self.scopes[scope].values.contains_key(name) {
            Some(scope)
        } else {
            assert(self@[scope as int].parent == self.scopes@[scope as int].parent);
            match self.scopes[scope].parent {
                Some(p) => self.find(p, name),
                None => None,
            }
        }
    }

    /// The scope `distance` steps up the chain from `scope`.
    fn climb(&self, scope: usize, distance: usize) -> (r: Option<usize>)
        requires
            self.wf(),
            scope < self@.len(),
        ensures
            ancestor(self@, scope as int, distance as nat) == match r {
                Some(at) => Some(at as int),
                None => None,
            },
            r is Some ==> r->0 < self@.len(),
        decreases distance,
    {
        if distance == 0 {
            Some(scope)
        } else {
            assert(self@[scope as int].parent == self.scopes@[scope as int].parent);
            match self.scopes[scope].parent {
                Some(p) => self.climb(p, distance - 1),
                None => None,
            }
        }
    }

    /// The value of `name` as seen from `scope`, or the error that no scope of
    /// the chain binds it.
    pub fn get(&self, scope: usize, name: &Token) -> (r: Result<LoxType, RuntimeException>)
        requires
            self.wf(),
            scope < self@.len(),
        ensures
            match lookup(self@, scope as int, name.raw@) {
                Some(value) => r matches Ok(found) && found@ == value,
                None => r is Err && r->Err_0.is(*name, undefined_variable(name.raw@)),
            },
    {
        let found: Option<&LoxType> = match self.find(scope, &name.raw) {
            Some(at) => self.scopes[at].values.get(&name.raw),
            None => None,
        };
        match found {
            Some(value) => Ok(value.clone()),
            None => {
                let mut message = String::from_str("Attempted to access undefined variable ");
                message.append(name.raw.as_str());
                message.append(".");
                Err(RuntimeException::report(name.clone(), message.as_str()))
            },
        }
    }

    /// The value of `name` in the scope `distance` steps up from `scope`, or
    /// the error that there is no such scope or that it does not bind `name`.
    pub fn get_at(
        &self,
        scope: usize,
        distance: usize,
        name: &Token,
    ) -> (r: Result<LoxType, RuntimeException>)
        requires
            self.wf(),
            scope < self@.len(),
        ensures
            match ancestor(self@, scope as int, distance as nat) {
                Some(at) if self@[at].bindings.contains_key(name.raw@) => r matches Ok(found)
                    && found@ == self@[at].bindings[name.raw@],
                _ => r is Err && r->Err_0.is(*name, missing_at_depth(name.raw@, distance as nat)),
            },
    {
        let found: Option<&LoxType> = match self.climb(scope, distance) {
            Some(at) => {
                assert(self@[at as int].bindings == self.scopes@[at as int].values@.map_values(
                    |v: LoxType| v@,
                ));
                self.scopes[at].values.get(&name.raw)
            },
            None => None,
        };
        match found {
            Some(value) => Ok(value.clone()),
            None => {
                let mut message = String::from_str("No variable with name ");
                message.append(name.raw.as_str());
                message.append(" at depth ");
                message.append(decimal(distance).as_str());
                Err(RuntimeException::report(name.clone(), message.as_str()))
            },
        }
    }

    /// Rebinds `name` in the nearest scope of the chain from `scope` that binds
    /// it. Where none does, nothing changes and the error says so.
    pub fn assign(
        &mut self,
        scope: usize,
        name: &Token,
        value: LoxType,
    ) -> (r: Result<(), RuntimeException>)
        requires
            old(self).wf(),
            scope < old(self)@.len(),
        ensures
            final(self).wf(),
            final(self)@.len() == old(self)@.len(),
            match holder(old(self)@, scope as int, name.raw@) {
                Some(at) => r is Ok && final(self)@ == bound(old(self)@, at, name.raw@, value@),
                None => r is Err && r->Err_0.is(*name, undefined_assignment(name.raw@))
                    && final(self)@ == old(self)@,
            },
    {
        match self.find(scope, &name.raw) {
            Some(at) => {
                self.define(at, name.raw.clone(), value);
                Ok(())
            },
            None => {
                let mut message = String::from_str("Attempted to assign to undefined variable ");
                message.append(name.raw.as_str());
                Err(RuntimeException::report(name.clone(), message.as_str()))
            },
        }
    }

    /// Rebinds `name` in the scope `distance` steps up from `scope`. Where
    /// there is no such scope, or it does not bind `name`, nothing changes and
    /// the error says so.
    pub fn assign_at(
        &mut self,
        scope: usize,
        distance: usize,
        name: &Token,
        value: LoxType,
    ) -> (r: Result<(), RuntimeException>)
        requires
            old(self).wf(),
            scope < old(self)@.len(),
        ensures
            final(self).wf(),
            final(self)@.len() == old(self)@.len(),
            match ancestor(old(self)@, scope as int, distance as nat) {
                Some(at) if old(self)@[at].bindings.contains_key(name.raw@) => r is Ok && final(self)@
                    == bound(old(self)@, at, name.raw@, value@),
                _ => r is Err && r->Err_0.is(*name, unassignable_at_depth(name.raw@))
                    && final(self)@ == old(self)@,
            },
    {
        let target: Option<usize> = match self.climb(scope, distance) {
            Some(at) => {
                assert(self@[at as int].bindings == self.scopes@[at as int].values@.map_values(
                    |v: LoxType| v@,
                ));
                if self.scopes[at].values.contains_key(&name.raw) {
                    Some(at)
                } else {
                    None
                }
            },
            None => None,
        };
        match target {
            Some(at) => {
                self.define(at, name.raw.clone(), value);
                Ok(())
            },
            None => {
                let mut message = String::from_str("Unable to assign to undefined variable ");
                message.append(name.raw.as_str());
                Err(RuntimeException::report(name.clone(), message.as_str()))
            },
        }
    }
}

/// What is defined in a scope is not seen from the scopes made before it: a
/// declaration in a block leaves every binding of the scopes around the block
/// as it was, also one of the same name.
pub proof fn lemma_inner_definition_leaves_outer(
    scopes: Seq<Scope>,
    inner: int,
    outer: int,
    name: Seq<char>,
    value: Value,
    seen: Seq<char>,
)
    requires
        chained(scopes),
        0 <= outer < inner < scopes.len(),
    ensures
        lookup(bound(scopes, inner, name, value), outer, seen) == lookup(scopes, outer, seen),
    decreases outer,
{
    let after = bound(scopes, inner, name, value);
    assert(after[outer] == scopes[outer]);
    if !scopes[outer].bindings.contains_key(seen) {
        match scopes[outer].parent {
            Some(p) if p < outer => {
                lemma_inner_definition_leaves_outer(scopes, inner, p as int, name, value, seen);
            },
            _ => {},
        }
    }
}

/// Giving scopes up leaves the scope to go back to, the scopes before it, and
/// every scope in which a function was declared, each as it was.
pub proof fn lemma_released(scopes: Seq<Scope>, keep: int)
    requires
        0 <= keep < scopes.len(),
    ensures
        keep < released(scopes, keep).len() <= scopes.len(),
        forall|i: int|
            0 <= i < released(scopes, keep).len() ==> released(scopes, keep)[i] == scopes[i],
        forall|i: int|
            0 <= i < scopes.len() && (#[trigger] scopes[i]).captured ==> i < released(
                scopes,
                keep,
            ).len(),
    decreases scopes.len(),
{
    if scopes.len() - 1 > keep && !scopes.last().captured {
        lemma_released(scopes.drop_last(), keep);
        assert forall|i: int| 0 <= i < released(scopes, keep).len() implies released(scopes, keep)[i]
            == scopes[i] by {
            assert(scopes.drop_last()[i] == scopes[i]);
        }
        assert forall|i: int| 0 <= i < scopes.len() && (#[trigger] scopes[i]).captured implies i
            < released(scopes, keep).len() by {
            assert(i < scopes.len() - 1);
            assert(scopes.drop_last()[i] == scopes[i]);
        }
    }
}

/// The scope that binds a name, and the scope at a distance, are scopes.
pub proof fn lemma_scopes_found(scopes: Seq<Scope>, scope: int, name: Seq<char>, distance: nat)
    ensures
        holder(scopes, scope, name) matches Some(at) ==> 0 <= at < scopes.len(),
        ancestor(scopes, scope, distance) matches Some(at) ==> 0 <= at < scopes.len(),
    decreases scope, distance,
{
    if 0 <= scope < scopes.len() {
        match scopes[scope].parent {
            Some(p) if p < scope => {
                lemma_scopes_found(scopes, p as int, name, distance);
                if distance > 0 {
                    lemma_scopes_found(scopes, p as int, name, (distance - 1) as nat);
                }
            },
            _ => {},
        }
    }
}

/// Giving scopes up changes nothing that is seen from a scope that stays: a
/// scope lies in scopes made before it, which stay with it.
pub proof fn lemma_release_keeps_lookups(scopes: Seq<Scope>, keep: int, scope: int, name: Seq<char>)
    requires
        chained(scopes),
        0 <= keep < scopes.len(),
        0 <= scope < released(scopes, keep).len(),
    ensures
        lookup(released(scopes, keep), scope, name) == lookup(scopes, scope, name),
    decreases scope,
{
    lemma_released(scopes, keep);
    let left = released(scopes, keep);
    assert(left[scope] == scopes[scope]);
    if !scopes[scope].bindings.contains_key(name) {
        match scopes[scope].parent {
            Some(p) if p < scope => {
                lemma_release_keeps_lookups(scopes, keep, p as int, name);
            },
            _ => {},
        }
    }
}

} // verus!
