use vstd::prelude::*;
use crate::datastructs::exceptions::RuntimeException;
use crate::datastructs::literal::{Literal, Value};
use crate::datastructs::token::Token;

verus! {

/// The bindings of one scope, read as a map from names to values.
pub open spec fn bindings_map(b: Seq<(String, Literal)>) -> Map<Seq<char>, Literal> {
    Map::new(
        |k: Seq<char>| exists|i: int| 0 <= i < b.len() && b[i].0@ == k,
        |k: Seq<char>| b[choose|i: int| 0 <= i < b.len() && b[i].0@ == k].1,
    )
}

/// No name is bound twice in one scope.
pub open spec fn distinct_names(b: Seq<(String, Literal)>) -> bool {
    forall|i: int, j: int|
        0 <= i < b.len() && 0 <= j < b.len() && i != j ==> b[i].0@ != b[j].0@
}

/// The text of the error for a name that no scope binds.
pub open spec fn undefined_variable_message(name: Seq<char>) -> Seq<char> {
    "Undefined variable '"@ + name + "'."@
}

/// `e` is the error reported for reading or assigning `name` where it is not bound.
pub open spec fn is_undefined_variable(e: RuntimeException, name: Token) -> bool {
    match e {
        RuntimeException::Error { token, message } => token == name && message@
            == undefined_variable_message(name.lexeme@),
        _ => false,
    }
}

pub proof fn lemma_bindings_at(b: Seq<(String, Literal)>, i: int)
    requires
        distinct_names(b),
        0 <= i < b.len(),
    ensures
        bindings_map(b).contains_key(b[i].0@),
        bindings_map(b)[b[i].0@] == b[i].1,
{
    let k = b[i].0@;
    assert(exists|j: int| 0 <= j < b.len() && b[j].0@ == k);
    let j = choose|j: int| 0 <= j < b.len() && b[j].0@ == k;
    assert(j == i);
}

pub proof fn lemma_bindings_update(b: Seq<(String, Literal)>, i: int, entry: (String, Literal))
    requires
        distinct_names(b),
        0 <= i < b.len(),
        b[i].0@ == entry.0@,
    ensures
        distinct_names(b.update(i, entry)),
        bindings_map(b.update(i, entry)) == bindings_map(b).insert(entry.0@, entry.1),
{
    let b2 = b.update(i, entry);
    assert forall|k: Seq<char>|
        #[trigger] bindings_map(b2).contains_key(k) == bindings_map(b).insert(entry.0@, entry.1).contains_key(k)
    by {
        if bindings_map(b).contains_key(k) {
            let j = choose|j: int| 0 <= j < b.len() && b[j].0@ == k;
            assert(b2[j].0@ == k);
        }
        if bindings_map(b2).contains_key(k) {
            let j = choose|j: int| 0 <= j < b2.len() && b2[j].0@ == k;
            assert(b[j].0@ == k);
        }
    }
    assert forall|k: Seq<char>| #[trigger] bindings_map(b2).contains_key(k) implies bindings_map(b2)[k]
        == bindings_map(b).insert(entry.0@, entry.1)[k] by {
        let j = choose|j: int| 0 <= j < b2.len() && b2[j].0@ == k;
        lemma_bindings_at(b2, j);
        if j != i {
            lemma_bindings_at(b, j);
        }
    }
    assert(bindings_map(b2) =~= bindings_map(b).insert(entry.0@, entry.1));
}

pub proof fn lemma_bindings_push(b: Seq<(String, Literal)>, entry: (String, Literal))
    requires
        distinct_names(b),
        !bindings_map(b).contains_key(entry.0@),
    ensures
        distinct_names(b.push(entry)),
        bindings_map(b.push(entry)) == bindings_map(b).insert(entry.0@, entry.1),
{
    let b2 = b.push(entry);
    assert forall|i: int| 0 <= i < b.len() implies b[i].0@ != entry.0@ by {
        if b[i].0@ == entry.0@ {
            assert(bindings_map(b).contains_key(entry.0@));
        }
    }
    assert forall|k: Seq<char>|
        #[trigger] bindings_map(b2).contains_key(k) == bindings_map(b).insert(entry.0@, entry.1).contains_key(k)
    by {
        if bindings_map(b).contains_key(k) {
            let j = choose|j: int| 0 <= j < b.len() && b[j].0@ == k;
            assert(b2[j].0@ == k);
        }
        if bindings_map(b2).contains_key(k) {
            let j = choose|j: int| 0 <= j < b2.len() && b2[j].0@ == k;
            if j < b.len() {
                assert(b[j].0@ == k);
            }
        }
        if k == entry.0@ {
            assert(b2[b.len() as int].0@ == k);
        }
    }
    assert forall|k: Seq<char>| #[trigger] bindings_map(b2).contains_key(k) implies bindings_map(b2)[k]
        == bindings_map(b).insert(entry.0@, entry.1)[k] by {
        let j = choose|j: int| 0 <= j < b2.len() && b2[j].0@ == k;
        lemma_bindings_at(b2, j);
        if j < b.len() {
            lemma_bindings_at(b, j);
        }
    }
    assert(bindings_map(b2) =~= bindings_map(b).insert(entry.0@, entry.1));
}

/// The bindings of a scope with each value as the contracts see it.
pub open spec fn scope_view(m: Map<Seq<char>, Literal>) -> Map<Seq<char>, Value> {
    m.map_values(|l: Literal| l@)
}

pub proof fn lemma_scope_view_insert(m: Map<Seq<char>, Literal>, n: Seq<char>, l: Literal)
    ensures
        scope_view(m.insert(n, l)) == scope_view(m).insert(n, l@),
{
    assert(scope_view(m.insert(n, l)) =~= scope_view(m).insert(n, l@));
}

/// One scope: its bindings, and the index of the scope it is nested in.
pub struct Scope {
    pub vars: Map<Seq<char>, Value>,
    pub enclosing: Option<usize>,
}

/// A new scope with no bindings, nested in the scope `at`.
pub open spec fn empty_scope(at: Option<usize>) -> Scope {
    Scope { vars: Map::empty(), enclosing: at }
}

/// The value of `name` seen from the scope `at`: its binding in the first scope that
/// binds it, walking out from `at` through the enclosing scopes.
pub open spec fn resolve(s: Seq<Scope>, at: int, name: Seq<char>) -> Option<Value>
    decreases at,
{
    if !(0 <= at < s.len()) {
        None
    } else if s[at].vars.contains_key(name) {
        Some(s[at].vars[name])
    } else {
        match s[at].enclosing {
            Some(p) => if p < at {
                resolve(s, p as int, name)
            } else {
                None
            },
            None => None,
        }
    }
}

/// The scopes after `name` is bound to `v` in the scope `at`.
pub open spec fn define_in(s: Seq<Scope>, at: int, name: Seq<char>, v: Value) -> Seq<Scope> {
    s.update(at, Scope { vars: s[at].vars.insert(name, v), enclosing: s[at].enclosing })
}

/// The scopes after `name` is given `v` in the first scope that binds it, walking out
/// from `at`; `None` when none does.
pub open spec fn reassign(s: Seq<Scope>, at: int, name: Seq<char>, v: Value) -> Option<Seq<Scope>>
    decreases at,
{
    if !(0 <= at < s.len()) {
        None
    } else if s[at].vars.contains_key(name) {
        Some(define_in(s, at, name, v))
    } else {
        match s[at].enclosing {
            Some(p) => if p < at {
                reassign(s, p as int, name, v)
            } else {
                None
            },
            None => None,
        }
    }
}

/// The scope `distance` steps out from `at`.
pub open spec fn ancestor(s: Seq<Scope>, at: int, distance: nat) -> Option<int>
    decreases distance,
{
    if !(0 <= at < s.len()) {
        None
    } else if distance == 0 {
        Some(at)
    } else {
        match s[at].enclosing {
            Some(p) => if p < at {
                ancestor(s, p as int, (distance - 1) as nat)
            } else {
                None
            },
            None => None,
        }
    }
}

/// Every scope is nested in one made before it.
pub open spec fn nested_before(s: Seq<Scope>) -> bool {
    forall|i: int| 0 <= i < s.len() ==> (#[trigger] s[i].enclosing matches Some(p) ==> p < i)
}

proof fn lemma_resolve_update(s: Seq<Scope>, k: int, f: Scope, at: int, name: Seq<char>)
    requires
        at < k < s.len(),
    ensures
        resolve(s.update(k, f), at, name) == resolve(s, at, name),
    decreases at,
{
    if 0 <= at < s.len() && !s[at].vars.contains_key(name) {
        if let Some(p) = s[at].enclosing {
            if p < at {
                lemma_resolve_update(s, k, f, p as int, name);
            }
        }
    }
}

proof fn lemma_resolve_push(s: Seq<Scope>, f: Scope, at: int, name: Seq<char>)
    requires
        at < s.len(),
    ensures
        resolve(s.push(f), at, name) == resolve(s, at, name),
    decreases at,
{
    if 0 <= at < s.len() && !s[at].vars.contains_key(name) {
        if let Some(p) = s[at].enclosing {
            if p < at {
                lemma_resolve_push(s, f, p as int, name);
            }
        }
    }
}

/// Law: after `name` is bound in a scope, looking it up from that scope gives the value bound.
pub proof fn law_get_after_define(s: Seq<Scope>, at: int, name: Seq<char>, v: Value)
    requires
        0 <= at < s.len(),
    ensures
        resolve(define_in(s, at, name, v), at, name) == Some(v),
{
}

/// Law: binding a name in a scope leaves the lookup from there of every other name as it was.
pub proof fn law_define_keeps_others(s: Seq<Scope>, at: int, name: Seq<char>, v: Value, other: Seq<char>)
    requires
        0 <= at < s.len(),
        other != name,
    ensures
        resolve(define_in(s, at, name, v), at, other) == resolve(s, at, other),
{
    let f = Scope { vars: s[at].vars.insert(name, v), enclosing: s[at].enclosing };
    if !s[at].vars.contains_key(other) {
        if let Some(p) = s[at].enclosing {
            if p < at {
                lemma_resolve_update(s, at, f, p as int, other);
            }
        }
    }
}

/// Law: assignment succeeds exactly when the name is bound somewhere out from the scope.
pub proof fn law_assign_iff_bound(s: Seq<Scope>, at: int, name: Seq<char>, v: Value)
    ensures
        reassign(s, at, name, v) is Some <==> resolve(s, at, name) is Some,
    decreases at,
{
    if 0 <= at < s.len() && !s[at].vars.contains_key(name) {
        if let Some(p) = s[at].enclosing {
            if p < at {
                law_assign_iff_bound(s, p as int, name, v);
            }
        }
    }
}

/// Law: after an assignment, looking the name up from the same scope gives the value
/// assigned, and the scopes keep their number.
pub proof fn law_get_after_assign(s: Seq<Scope>, at: int, name: Seq<char>, v: Value)
    requires
        reassign(s, at, name, v) is Some,
    ensures
        resolve(reassign(s, at, name, v).unwrap(), at, name) == Some(v),
        reassign(s, at, name, v).unwrap().len() == s.len(),
    decreases at,
{
    if !s[at].vars.contains_key(name) {
        let p = s[at].enclosing.unwrap();
        law_get_after_assign(s, p as int, name, v);
        let s2 = reassign(s, p as int, name, v).unwrap();
        lemma_reassign_keeps_above(s, p as int, name, v, at);
        assert(s2[at] == s[at]);
    }
}

/// Assigning from `at` changes no scope above `at`.
proof fn lemma_reassign_keeps_above(s: Seq<Scope>, at: int, name: Seq<char>, v: Value, k: int)
    requires
        reassign(s, at, name, v) is Some,
        at < k < s.len(),
    ensures
        reassign(s, at, name, v).unwrap()[k] == s[k],
    decreases at,
{
    if !s[at].vars.contains_key(name) {
        let p = s[at].enclosing.unwrap();
        lemma_reassign_keeps_above(s, p as int, name, v, k);
    }
}

/// Law: a new scope nested in `at` sees every binding seen from `at`, and a binding made
/// in it hides a binding of the same name further out.
pub proof fn law_enclosed_scope(s: Seq<Scope>, at: usize, name: Seq<char>, v: Value)
    requires
        0 <= at < s.len(),
    ensures
        resolve(s.push(empty_scope(Some(at))), s.len() as int, name) == resolve(s, at as int, name),
        resolve(
            define_in(s.push(empty_scope(Some(at))), s.len() as int, name, v),
            s.len() as int,
            name,
        ) == Some(v),
{
    lemma_resolve_push(s, empty_scope(Some(at)), at as int, name);
}

/// Law: looking up from zero steps out is looking up from the scope itself.
pub proof fn law_lookup_at_zero(s: Seq<Scope>, at: int)
    requires
        0 <= at < s.len(),
    ensures
        ancestor(s, at, 0) == Some(at),
{
}

/// The bindings of one scope and the index of the scope it is nested in.
struct Frame {
    values: Vec<(String, Literal)>,
    enclosing: Option<usize>,
}

spec fn frame_view(f: Frame) -> Scope {
    Scope { vars: scope_view(bindings_map(f.values@)), enclosing: f.enclosing }
}

/// The scopes of a program's run, each held by its index; a scope lives as long as the
/// environment, so that a function can keep the scope it was declared in.
pub struct Environment {
    frames: Vec<Frame>,
}

impl Environment {
    /// The scopes, by index.
    pub closed spec fn scopes(&self) -> Seq<Scope> {
        self.frames@.map_values(|f: Frame| frame_view(f))
    }

    /// There is a global scope, every scope binds each name at most once, and every
    /// scope is nested in one made before it.
    pub closed spec fn wf(&self) -> bool {
        &&& self.frames@.len() >= 1
        &&& forall|i: int| 0 <= i < self.frames@.len() ==> distinct_names(#[trigger] self.frames@[i].values@)
        &&& nested_before(self.scopes())
    }

    pub proof fn lemma_wf(&self)
        requires
            self.wf(),
        ensures
            self.scopes().len() >= 1,
            nested_before(self.scopes()),
    {
    }

    /// An environment holding one empty global scope, at index 0.
    pub fn new() -> (e: Environment)
        ensures
            e.wf(),
            e.scopes() == seq![empty_scope(None)],
    {
        let e = Environment { frames: vec![Frame { values: Vec::new(), enclosing: None }] };
        assert(bindings_map(e.frames@[0].values@) =~= Map::empty());
        assert(scope_view(Map::<Seq<char>, Literal>::empty()) =~= Map::empty());
        assert(e.scopes() =~= seq![empty_scope(None)]);
        e
    }

    /// The number of scopes.
    pub fn len(&self) -> (n: usize)
        ensures
            n == self.scopes().len(),
    {
        self.frames.len()
    }

    /// Makes a new empty scope nested in the scope `enclosing`, and gives its index.
    pub fn new_enclosed(&mut self, enclosing: usize) -> (at: usize)
        requires
            old(self).wf(),
            enclosing < old(self).scopes().len(),
        ensures
            final(self).wf(),
            at == old(self).scopes().len(),
            final(self).scopes() == old(self).scopes().push(empty_scope(Some(enclosing))),
    {
        let at = self.frames.len();
        self.frames.push(Frame { values: Vec::new(), enclosing: Some(enclosing) });
        proof {
            assert(bindings_map(self.frames@[at as int].values@) =~= Map::empty());
            assert(scope_view(Map::<Seq<char>, Literal>::empty()) =~= Map::empty());
            assert(self.scopes() =~= old(self).scopes().push(empty_scope(Some(enclosing))));
        }
        at
    }

    /// The index in the scope `at` of the binding of `name`, if there is one.
    fn find(&self, at: usize, name: &String) -> (r: Option<usize>)
        requires
            self.wf(),
            at < self.scopes().len(),
        ensures
            match r {
                Some(i) => i < self.frames@[at as int].values@.len() && self.frames@[at as int].values@[i as int].0@ == name@,
                None => !self.scopes()[at as int].vars.contains_key(name@),
            },
    {
        let values = &self.frames[at].values;
        let mut i: usize = 0;
        while i < values.len()
            invariant
                values@ == self.frames@[at as int].values@,
                i <= values@.len(),
                forall|j: int| 0 <= j < i ==> values@[j].0@ != name@,
            decreases values@.len() - i,
        {
            if values[i].0 == *name {
                return Some(i);
            }
            i = i + 1;
        }
        None
    }

    fn undefined(name: &Token) -> (e: RuntimeException)
        ensures
            is_undefined_variable(e, *name),
    {
        let mut message = String::from_str("Undefined variable '");
        message.append(name.lexeme.as_str());
        message.append("'.");
        RuntimeException::Error { token: name.duplicate(), message }
    }

    /// The value of `name` seen from the scope `at`; an error when no scope binds it.
    pub fn get(&self, at: usize, name: &Token) -> (r: Result<Literal, RuntimeException>)
        requires
            self.wf(),
            at < self.scopes().len(),
        ensures
            match resolve(self.scopes(), at as int, name.lexeme@) {
                Some(v) => r matches Ok(l) && l@ == v,
                None => r matches Err(e) && is_undefined_variable(e, *name),
            },
    {
        let mut k = at;
        loop
            invariant
                self.wf(),
                k < self.scopes().len(),
                resolve(self.scopes(), at as int, name.lexeme@) == resolve(self.scopes(), k as int, name.lexeme@),
            decreases k,
        {
            match self.find(k, &name.lexeme) {
                Some(i) => {
                    proof {
                        lemma_bindings_at(self.frames@[k as int].values@, i as int);
                    }
                    return Ok(self.frames[k].values[i].1.duplicate());
                },
                None => match self.frames[k].enclosing {
                    Some(p) => {
                        assert(self.scopes()[k as int].enclosing == Some(p));
                        k = p;
                    },
                    None => {
                        return Err(Environment::undefined(name));
                    },
                },
            }
        }
    }

    /// Binds `name` to `value` in the scope `at`, replacing any binding of it there.
    pub fn define(&mut self, at: usize, name: &Token, value: Literal)
        requires
            old(self).wf(),
            at < old(self).scopes().len(),
        ensures
            final(self).wf(),
            final(self).scopes() == define_in(old(self).scopes(), at as int, name.lexeme@, value@),
    {
        let entry = (name.lexeme.clone(), value);
        let found = self.find(at, &name.lexeme);
        let mut values: Vec<(String, Literal)> = Vec::new();
        std::mem::swap(&mut values, &mut self.frames[at].values);
        let ghost old_values = values@;
        assert(old_values == old(self).frames@[at as int].values@);
        match found {
            Some(i) => {
                proof {
                    lemma_bindings_update(values@, i as int, entry);
                }
                values.set(i, entry);
            },
            None => {
                proof {
                    assert(!bindings_map(values@).contains_key(name.lexeme@));
                    lemma_bindings_push(values@, entry);
                }
                values.push(entry);
            },
        }
        proof {
            lemma_scope_view_insert(bindings_map(old_values), name.lexeme@, value);
        }
        self.frames[at].values = values;
        proof {
            let o = old(self).scopes();
            assert(self.scopes() =~= define_in(o, at as int, name.lexeme@, value@));
        }
    }

    /// Gives `name` the value `value` in the first scope that binds it, walking out from
    /// the scope `at`; an error, and no change, when none does.
    pub fn assign(&mut self, at: usize, name: &Token, value: Literal) -> (r: Result<(), RuntimeException>)
        requires
            old(self).wf(),
            at < old(self).scopes().len(),
        ensures
            final(self).wf(),
            match reassign(old(self).scopes(), at as int, name.lexeme@, value@) {
                Some(s) => r is Ok && final(self).scopes() == s,
                None => r matches Err(e) && is_undefined_variable(e, *name) && final(self).scopes()
                    == old(self).scopes(),
            },
    {
        let mut k = at;
        loop
            invariant
                self.wf(),
                *self == *old(self),
                k < self.scopes().len(),
                reassign(self.scopes(), at as int, name.lexeme@, value@) == reassign(self.scopes(), k as int, name.lexeme@, value@),
            decreases k,
        {
            match self.find(k, &name.lexeme) {
                Some(i) => {
                    self.define(k, name, value);
                    return Ok(());
                },
                None => match self.frames[k].enclosing {
                    Some(p) => {
                        assert(self.scopes()[k as int].enclosing == Some(p));
                        k = p;
                    },
                    None => {
                        return Err(Environment::undefined(name));
                    },
                },
            }
        }
    }

    /// The scope `distance` steps out from `at`, if there is one.
    fn step_out(&self, at: usize, distance: usize) -> (r: Option<usize>)
        requires
            self.wf(),
            at < self.scopes().len(),
        ensures
            match ancestor(self.scopes(), at as int, distance as nat) {
                Some(k) => r matches Some(j) && j == k && k < self.scopes().len(),
                None => r is None,
            },
    {
        let mut k = at;
        let mut d = distance;
        loop
            invariant
                self.wf(),
                k < self.scopes().len(),
                ancestor(self.scopes(), at as int, distance as nat) == ancestor(self.scopes(), k as int, d as nat),
            decreases d,
        {
            if d == 0 {
                return Some(k);
            }
            match self.frames[k].enclosing {
                Some(p) => {
                    assert(self.scopes()[k as int].enclosing == Some(p));
                    k = p;
                    d = d - 1;
                },
                None => {
                    return None;
                },
            }
        }
    }

    /// The value of `name` seen from the scope `distance` steps out from `at`; an error
    /// when there is no such scope or no scope from there on binds the name.
    pub fn get_at(&self, at: usize, distance: usize, name: &Token) -> (r: Result<Literal, RuntimeException>)
        requires
            self.wf(),
            at < self.scopes().len(),
        ensures
            match ancestor(self.scopes(), at as int, distance as nat) {
                Some(k) => match resolve(self.scopes(), k, name.lexeme@) {
                    Some(v) => r matches Ok(l) && l@ == v,
                    None => r matches Err(e) && is_undefined_variable(e, *name),
                },
                None => r matches Err(e) && is_undefined_variable(e, *name),
            },
    {
        match self.step_out(at, distance) {
            Some(k) => self.get(k, name),
            None => Err(Environment::undefined(name)),
        }
    }

    /// Assigns `name` as `assign` does, from the scope `distance` steps out from `at`; an
    /// error, and no change, when there is no such scope or none from there on binds it.
    pub fn assign_at(&mut self, at: usize, distance: usize, name: &Token, value: Literal) -> (r: Result<(), RuntimeException>)
        requires
            old(self).wf(),
            at < old(self).scopes().len(),
        ensures
            final(self).wf(),
            match ancestor(old(self).scopes(), at as int, distance as nat) {
                Some(k) => match reassign(old(self).scopes(), k, name.lexeme@, value@) {
                    Some(s) => r is Ok && final(self).scopes() == s,
                    None => r matches Err(e) && is_undefined_variable(e, *name) && final(self).scopes()
                        == old(self).scopes(),
                },
                None => r matches Err(e) && is_undefined_variable(e, *name) && final(self).scopes()
                    == old(self).scopes(),
            },
    {
        match self.step_out(at, distance) {
            Some(k) => self.assign(k, name, value),
            None => Err(Environment::undefined(name)),
        }
    }

    /// A copy of this environment.
    pub fn duplicate(&self) -> (r: Environment)
        requires
            self.wf(),
        ensures
            r.wf(),
            r.scopes() == self.scopes(),
    {
        let mut frames: Vec<Frame> = Vec::new();
        let mut i: usize = 0;
        while i < self.frames.len()
            invariant
                i <= self.frames@.len(),
                frames@.len() == i,
                forall|k: int| 0 <= k < i ==> (#[trigger] frames@[k]).values@ == self.frames@[k].values@
                    && frames@[k].enclosing == self.frames@[k].enclosing,
            decreases self.frames@.len() - i,
        {
            let source = &self.frames[i];
            let mut values: Vec<(String, Literal)> = Vec::new();
            let mut j: usize = 0;
            while j < source.values.len()
                invariant
                    j <= source.values@.len(),
                    values@ == source.values@.take(j as int),
                decreases source.values@.len() - j,
            {
                values.push((source.values[j].0.clone(), source.values[j].1.duplicate()));
                j = j + 1;
                assert(values@ =~= source.values@.take(j as int));
            }
            assert(values@ =~= source.values@);
            frames.push(Frame { values, enclosing: source.enclosing });
            i = i + 1;
        }
        let r = Environment { frames };
        assert(r.scopes() =~= self.scopes());
        r
    }
}

} // verus!
