use vstd::prelude::*;

use crate::token::Token;
use crate::value::{clone_value, Value, ValueV};

verus! {

/// One scope: the variables defined in it, kept in the order of their names,
/// and the scope it is nested in. `borrowed` is set while a user of the heap
/// holds the scope for writing (see [`Heap::set_borrowed`]); reading or
/// writing it then fails. The interpreter itself never holds a scope across
/// an evaluation.
pub struct Environment {
    enclosing: Option<usize>,
    values: Vec<(String, Value)>,
    borrowed: bool,
}

/// The model of an [`Environment`].
pub struct ScopeV {
    pub enclosing: Option<nat>,
    pub values: Seq<(Seq<char>, ValueV)>,
    pub borrowed: bool,
}

/// The model of the variables of a scope.
pub open spec fn entries_model(v: Seq<(String, Value)>) -> Seq<(Seq<char>, ValueV)> {
    v.map_values(|p: (String, Value)| (p.0@, p.1.model()))
}

impl Environment {
    pub closed spec fn model(&self) -> ScopeV {
        ScopeV {
            enclosing: match self.enclosing {
                Some(e) => Some(e as nat),
                None => None,
            },
            values: entries_model(self.values@),
            borrowed: self.borrowed,
        }
    }
}

/// All the environments of a run, each named by its index.
pub struct Heap {
    scopes: Vec<Environment>,
}

impl View for Heap {
    type V = Seq<ScopeV>;

    closed spec fn view(&self) -> Seq<ScopeV> {
        self.scopes@.map_values(|s: Environment| s.model())
    }
}

/// A scope that has just been made.
pub open spec fn fresh_scope(enclosing: Option<nat>) -> ScopeV {
    ScopeV { enclosing, values: Seq::empty(), borrowed: false }
}

/// The first index at or after `i` of a variable named `name`.
pub open spec fn index_from(vals: Seq<(Seq<char>, ValueV)>, name: Seq<char>, i: nat) -> Option<nat>
    decreases vals.len() - i,
{
    if i >= vals.len() {
        None
    } else if vals[i as int].0 == name {
        Some(i)
    } else {
        index_from(vals, name, i + 1)
    }
}

proof fn lemma_index_from(vals: Seq<(Seq<char>, ValueV)>, name: Seq<char>, i: nat)
    ensures
        index_from(vals, name, i) matches Some(k) ==> i <= k < vals.len() && vals[k as int].0 == name,
    decreases vals.len() - i,
{
    if i < vals.len() && vals[i as int].0 != name {
        lemma_index_from(vals, name, i + 1);
    }
}

/// The index of the variable named `name`, if there is one.
pub open spec fn index_of(vals: Seq<(Seq<char>, ValueV)>, name: Seq<char>) -> Option<nat> {
    index_from(vals, name, 0)
}

/// Whether `a` comes before `b` in the order of names (character by
/// character, by code point, a prefix first), from position `i` on.
pub open spec fn key_less_from(a: Seq<char>, b: Seq<char>, i: nat) -> bool
    decreases a.len() - i,
{
    if i >= a.len() {
        i < b.len()
    } else if i >= b.len() {
        false
    } else if a[i as int] != b[i as int] {
        (a[i as int] as int) < (b[i as int] as int)
    } else {
        key_less_from(a, b, i + 1)
    }
}

/// Whether the name `a` comes before the name `b`.
pub open spec fn key_less(a: Seq<char>, b: Seq<char>) -> bool {
    key_less_from(a, b, 0)
}

/// The variables after `name` is defined as `v`, scanning from `i`: an
/// existing variable of that name is overwritten, else the new one goes
/// before the first greater name.
pub open spec fn define_from(vals: Seq<(Seq<char>, ValueV)>, name: Seq<char>, v: ValueV, i: nat) -> Seq<(Seq<char>, ValueV)>
    decreases vals.len() - i,
{
    if i >= vals.len() {
        vals.push((name, v))
    } else if vals[i as int].0 == name {
        vals.update(i as int, (name, v))
    } else if !key_less(vals[i as int].0, name) {
        vals.insert(i as int, (name, v))
    } else {
        define_from(vals, name, v, i + 1)
    }
}

/// The heap after `name` is defined as `v` in environment `env`.
pub open spec fn define(h: Seq<ScopeV>, env: nat, name: Seq<char>, v: ValueV) -> Seq<ScopeV> {
    h.update(env as int, ScopeV { values: define_from(h[env as int].values, name, v, 0), ..h[env as int] })
}

/// The outcome of looking a variable up.
pub enum Lookup {
    Found(ValueV),
    Missing,
    Borrowed,
}

/// Looks `name` up from environment `env` outwards.
pub open spec fn lookup(h: Seq<ScopeV>, env: nat, name: Seq<char>) -> Lookup
    decreases env,
{
    if env >= h.len() {
        Lookup::Missing
    } else if h[env as int].borrowed {
        Lookup::Borrowed
    } else {
        match index_of(h[env as int].values, name) {
            Some(k) => Lookup::Found(h[env as int].values[k as int].1),
            None => match h[env as int].enclosing {
                Some(e) => if e < env {
                    lookup(h, e, name)
                } else {
                    Lookup::Missing
                },
                None => Lookup::Missing,
            },
        }
    }
}

/// Assigns `v` to the innermost variable named `name` seen from `env`: the
/// heap afterwards, and the value the variable held (`Missing` where there
/// is no such variable; the heap is then unchanged).
pub open spec fn assign(h: Seq<ScopeV>, env: nat, name: Seq<char>, v: ValueV) -> (Seq<ScopeV>, Lookup)
    decreases env,
{
    if env >= h.len() {
        (h, Lookup::Missing)
    } else if h[env as int].borrowed {
        (h, Lookup::Borrowed)
    } else {
        match index_of(h[env as int].values, name) {
            Some(k) => (
                h.update(env as int, ScopeV { values: h[env as int].values.update(k as int, (name, v)), ..h[env as int] }),
                Lookup::Found(h[env as int].values[k as int].1),
            ),
            None => match h[env as int].enclosing {
                Some(e) => if e < env {
                    assign(h, e, name, v)
                } else {
                    (h, Lookup::Missing)
                },
                None => (h, Lookup::Missing),
            },
        }
    }
}

pub proof fn lemma_assign_shape(h: Seq<ScopeV>, env: nat, name: Seq<char>, v: ValueV)
    ensures
        assign(h, env, name, v).0.len() == h.len(),
        !(assign(h, env, name, v).1 is Found) ==> assign(h, env, name, v).0 == h,
    decreases env,
{
    if env < h.len() && !h[env as int].borrowed && index_of(h[env as int].values, name) is None {
        if let Some(e) = h[env as int].enclosing {
            if e < env {
                lemma_assign_shape(h, e, name, v);
            }
        }
    }
}

/// A scope was held for writing where it had to be read or written.
#[derive(Debug, PartialEq)]
pub struct AlreadyBorrowed;

/// Whether `a` comes before `b` in the order of names.
pub fn key_less_exec(a: &String, b: &String) -> (r: bool)
    ensures
        r == key_less(a@, b@),
{
    let la = a.as_str().unicode_len();
    let lb = b.as_str().unicode_len();
    let mut i: usize = 0;
    while i < la && i < lb
        invariant
            la == a@.len(),
            lb == b@.len(),
            i <= la,
            i <= lb,
            key_less(a@, b@) == key_less_from(a@, b@, i as nat),
        decreases la - i,
    {
        let ca = a.as_str().get_char(i);
        let cb = b.as_str().get_char(i);
        if ca != cb {
            return ca < cb;
        }
        i = i + 1;
    }
    i < lb
}

impl Heap {
    pub fn new() -> (h: Heap)
        ensures
            h@ == Seq::<ScopeV>::empty(),
    {
        let h = Heap { scopes: Vec::new() };
        assert(h@ =~= Seq::<ScopeV>::empty());
        h
    }

    /// The number of environments.
    pub fn len(&self) -> (n: usize)
        ensures
            n == self@.len(),
    {
        self.scopes.len()
    }

    fn push(&mut self, scope: Environment)
        ensures
            final(self)@ == old(self)@.push(scope.model()),
    {
        self.scopes.push(scope);
        assert(final(self)@ =~= old(self)@.push(scope.model()));
    }

    fn replace_entry(&mut self, env: usize, k: usize, key: String, value: Value)
        requires
            env < old(self)@.len(),
            k < old(self)@[env as int].values.len(),
        ensures
            final(self)@ == old(self)@.update(
                env as int,
                ScopeV { values: old(self)@[env as int].values.update(k as int, (key@, value.model())), ..old(self)@[env as int] },
            ),
    {
        let ghost entry = (key@, value.model());
        self.scopes[env].values.set(k, (key, value));
        assert(entries_model(self.scopes@[env as int].values@) =~= old(self)@[env as int].values.update(k as int, entry));
        assert(final(self)@ =~= old(self)@.update(
            env as int,
            ScopeV { values: old(self)@[env as int].values.update(k as int, entry), ..old(self)@[env as int] },
        ));
    }

    fn insert_entry(&mut self, env: usize, k: usize, key: String, value: Value)
        requires
            env < old(self)@.len(),
            k <= old(self)@[env as int].values.len(),
        ensures
            final(self)@ == old(self)@.update(
                env as int,
                ScopeV { values: old(self)@[env as int].values.insert(k as int, (key@, value.model())), ..old(self)@[env as int] },
            ),
    {
        let ghost entry = (key@, value.model());
        self.scopes[env].values.insert(k, (key, value));
        assert(entries_model(self.scopes@[env as int].values@) =~= old(self)@[env as int].values.insert(k as int, entry));
        assert(final(self)@ =~= old(self)@.update(
            env as int,
            ScopeV { values: old(self)@[env as int].values.insert(k as int, entry), ..old(self)@[env as int] },
        ));
    }

    fn push_entry(&mut self, env: usize, key: String, value: Value)
        requires
            env < old(self)@.len(),
        ensures
            final(self)@ == old(self)@.update(
                env as int,
                ScopeV { values: old(self)@[env as int].values.push((key@, value.model())), ..old(self)@[env as int] },
            ),
    {
        let ghost entry = (key@, value.model());
        self.scopes[env].values.push((key, value));
        assert(entries_model(self.scopes@[env as int].values@) =~= old(self)@[env as int].values.push(entry));
        assert(final(self)@ =~= old(self)@.update(
            env as int,
            ScopeV { values: old(self)@[env as int].values.push(entry), ..old(self)@[env as int] },
        ));
    }

    /// Whether environment `env` is held for writing.
    pub fn is_borrowed(&self, env: usize) -> (r: bool)
        requires
            env < self@.len(),
        ensures
            r == self@[env as int].borrowed,
    {
        self.scopes[env].borrowed
    }

    /// Holds environment `env` for writing, or releases it.
    pub fn set_borrowed(&mut self, env: usize, borrowed: bool)
        requires
            env < old(self)@.len(),
        ensures
            final(self)@ == old(self)@.update(env as int, ScopeV { borrowed, ..old(self)@[env as int] }),
    {
        self.scopes[env].borrowed = borrowed;
        assert(final(self)@ =~= old(self)@.update(env as int, ScopeV { borrowed, ..old(self)@[env as int] }));
    }

    /// The environment that `env` is nested in.
    pub fn enclosing(&self, env: usize) -> (r: Option<usize>)
        requires
            env < self@.len(),
        ensures
            match r {
                Some(e) => self@[env as int].enclosing == Some(e as nat),
                None => self@[env as int].enclosing is None,
            },
    {
        self.scopes[env].enclosing
    }

    /// The number of variables defined in environment `env`.
    pub fn count(&self, env: usize) -> (n: usize)
        requires
            env < self@.len(),
        ensures
            n == self@[env as int].values.len(),
    {
        self.scopes[env].values.len()
    }

    /// The name of the `k`-th variable of environment `env`.
    pub fn name_at(&self, env: usize, k: usize) -> (r: &String)
        requires
            env < self@.len(),
            k < self@[env as int].values.len(),
        ensures
            r@ == self@[env as int].values[k as int].0,
    {
        &self.scopes[env].values[k].0
    }

    /// The value of the `k`-th variable of environment `env`.
    pub fn value_at(&self, env: usize, k: usize) -> (r: &Value)
        requires
            env < self@.len(),
            k < self@[env as int].values.len(),
        ensures
            r.model() == self@[env as int].values[k as int].1,
    {
        &self.scopes[env].values[k].1
    }

    fn find(&self, env: usize, name: &String) -> (r: Option<usize>)
        requires
            env < self@.len(),
        ensures
            match r {
                Some(k) => index_of(self@[env as int].values, name@) == Some(k as nat) && k < self@[env as int].values.len(),
                None => index_of(self@[env as int].values, name@) is None,
            },
    {
        proof {
            lemma_index_from(self@[env as int].values, name@, 0);
        }
        let ghost vals = self@[env as int].values;
        let n = self.scopes[env].values.len();
        let mut i: usize = 0;
        while i < n
            invariant
                env < self@.len(),
                vals == self@[env as int].values,
                n == vals.len(),
                i <= n,
                index_of(vals, name@) == index_from(vals, name@, i as nat),
            decreases n - i,
        {
            if self.scopes[env].values[i].0 == *name {
                return Some(i);
            }
            i = i + 1;
        }
        None
    }

    /// Looks `name` up from environment `env` outwards.
    pub fn get_checked(&self, env: usize, name: &String) -> (r: Result<Option<Value>, AlreadyBorrowed>)
        requires
            env < self@.len(),
        ensures
            match lookup(self@, env as nat, name@) {
                Lookup::Found(v) => r matches Ok(Some(x)) && x.model() == v,
                Lookup::Missing => r matches Ok(None),
                Lookup::Borrowed => r is Err,
            },
        decreases env,
    {
        if self.scopes[env].borrowed {
            return Err(AlreadyBorrowed);
        }
        match self.find(env, name) {
            Some(k) => Ok(Some(clone_value(&self.scopes[env].values[k].1))),
            None => match self.scopes[env].enclosing {
                Some(e) => if e < env {
                    self.get_checked(e, name)
                } else {
                    Ok(None)
                },
                None => Ok(None),
            },
        }
    }

    /// Assigns `value` to the innermost variable named `name` seen from
    /// `env`, and gives back the value it held.
    pub fn assign_checked(&mut self, env: usize, name: &String, value: Value) -> (r: Result<Option<Value>, AlreadyBorrowed>)
        requires
            env < old(self)@.len(),
        ensures
            final(self)@ == assign(old(self)@, env as nat, name@, value.model()).0,
            match assign(old(self)@, env as nat, name@, value.model()).1 {
                Lookup::Found(v) => r matches Ok(Some(x)) && x.model() == v,
                Lookup::Missing => r matches Ok(None),
                Lookup::Borrowed => r is Err,
            },
        decreases env,
    {
        if self.scopes[env].borrowed {
            return Err(AlreadyBorrowed);
        }
        match self.find(env, name) {
            Some(k) => {
                let ghost h = self@;
                let ghost vm = value.model();
                let old_value = clone_value(&self.scopes[env].values[k].1);
                let key = name.clone();
                self.replace_entry(env, k, key, value);
                Ok(Some(old_value))
            },
            None => match self.scopes[env].enclosing {
                Some(e) => if e < env {
                    self.assign_checked(e, name, value)
                } else {
                    Ok(None)
                },
                None => Ok(None),
            },
        }
    }

    /// Defines `name` as `value` in environment `env`, overwriting a
    /// variable of that name there.
    pub fn define_checked(&mut self, env: usize, name: &String, value: Value)
        requires
            env < old(self)@.len(),
        ensures
            final(self)@ == define(old(self)@, env as nat, name@, value.model()),
    {
        let ghost h = self@;
        let ghost vals = h[env as int].values;
        let ghost vm = value.model();
        let n = self.scopes[env].values.len();
        let mut i: usize = 0;
        while i < n
            invariant
                env < self@.len(),
                self@ == h,
                h == old(self)@,
                vals == h[env as int].values,
                n == vals.len(),
                i <= n,
                vm == value.model(),
                define_from(vals, name@, vm, 0) == define_from(vals, name@, vm, i as nat),
            decreases n - i,
        {
            proof {
                assert(vals[i as int] == (self.scopes@[env as int].values@[i as int].0@, self.scopes@[env as int].values@[i as int].1.model()));
            }
            if self.scopes[env].values[i].0 == *name {
                let key = name.clone();
                self.replace_entry(env, i, key, value);
                return;
            }
            if !key_less_exec(&self.scopes[env].values[i].0, name) {
                let key = name.clone();
                self.insert_entry(env, i, key, value);
                return;
            }
            i = i + 1;
        }
        let key = name.clone();
        self.push_entry(env, key, value);
    }
}

impl Environment {
    /// Makes a new outermost environment and gives its index.
    pub fn new_top_level(heap: &mut Heap) -> (env: usize)
        ensures
            env == old(heap)@.len(),
            final(heap)@ == old(heap)@.push(fresh_scope(None)),
            heap_in_order(old(heap)@) ==> heap_in_order(final(heap)@),
    {
        proof {
            if heap_in_order(old(heap)@) {
                lemma_push_fresh_in_order(old(heap)@, None);
            }
        }
        let env = heap.len();
        let scope = Environment { enclosing: None, values: Vec::new(), borrowed: false };
        assert(scope.model().values =~= Seq::<(Seq<char>, ValueV)>::empty());
        heap.push(scope);
        env
    }

    /// Makes a new environment nested in `environment` and gives its index.
    pub fn new_block(heap: &mut Heap, environment: usize) -> (env: usize)
        ensures
            env == old(heap)@.len(),
            final(heap)@ == old(heap)@.push(fresh_scope(Some(environment as nat))),
            heap_in_order(old(heap)@) ==> heap_in_order(final(heap)@),
    {
        proof {
            if heap_in_order(old(heap)@) {
                lemma_push_fresh_in_order(old(heap)@, Some(environment as nat));
            }
        }
        let env = heap.len();
        let scope = Environment { enclosing: Some(environment), values: Vec::new(), borrowed: false };
        assert(scope.model().values =~= Seq::<(Seq<char>, ValueV)>::empty());
        heap.push(scope);
        env
    }

    /// Defines `name` as `value` in `environment`; defining a name again
    /// overwrites it.
    pub fn define(heap: &mut Heap, environment: usize, name: &str, value: Value)
        requires
            environment < old(heap)@.len(),
            !old(heap)@[environment as int].borrowed,
        ensures
            final(heap)@ == define(old(heap)@, environment as nat, name@, value.model()),
            heap_in_order(old(heap)@) ==> heap_in_order(final(heap)@),
    {
        let key = String::from_str(name);
        let ghost vm = value.model();
        heap.define_checked(environment, &key, value);
        proof {
            if heap_in_order(old(heap)@) {
                lemma_define_heap_in_order(old(heap)@, environment as nat, name@, vm);
            }
        }
    }

    /// Assigns a new value to `name`, if it exists, and returns the old value.
    /// Otherwise, does nothing and returns `None`.
    pub fn assign(heap: &mut Heap, environment: usize, name: &Token, value: Value) -> (r: Option<Value>)
        requires
            environment < old(heap)@.len(),
            !(assign(old(heap)@, environment as nat, name.lexeme@, value.model()).1 is Borrowed),
        ensures
            final(heap)@ == assign(old(heap)@, environment as nat, name.lexeme@, value.model()).0,
            match assign(old(heap)@, environment as nat, name.lexeme@, value.model()).1 {
                Lookup::Found(v) => r matches Some(x) && x.model() == v,
                _ => r is None,
            },
            heap_in_order(old(heap)@) ==> heap_in_order(final(heap)@),
    {
        proof {
            if heap_in_order(old(heap)@) {
                lemma_assign_heap_in_order(old(heap)@, environment as nat, name.lexeme@, value.model());
            }
        }
        match heap.assign_checked(environment, &name.lexeme, value) {
            Ok(r) => r,
            Err(_) => None,
        }
    }

    /// The value of `name` seen from `environment`, if it is defined.
    pub fn get(heap: &Heap, environment: usize, name: &Token) -> (r: Option<Value>)
        requires
            environment < heap@.len(),
            !(lookup(heap@, environment as nat, name.lexeme@) is Borrowed),
        ensures
            match lookup(heap@, environment as nat, name.lexeme@) {
                Lookup::Found(v) => r matches Some(x) && x.model() == v,
                _ => r is None,
            },
    {
        match heap.get_checked(environment, &name.lexeme) {
            Ok(r) => r,
            Err(_) => None,
        }
    }
}

} // verus!

verus! {

// ---------------------------------------------------------------------------
// Laws of environments
// ---------------------------------------------------------------------------

/// The value of the first variable named `m` at or after position `i`.
pub open spec fn value_from(vals: Seq<(Seq<char>, ValueV)>, m: Seq<char>, i: nat) -> Option<ValueV> {
    match index_from(vals, m, i) {
        Some(k) => Some(vals[k as int].1),
        None => None,
    }
}

/// Defining keeps the variables before the position it starts scanning at.
proof fn lemma_define_keeps_prefix(vals: Seq<(Seq<char>, ValueV)>, n: Seq<char>, v: ValueV, i: nat)
    requires
        i <= vals.len(),
    ensures
        define_from(vals, n, v, i).len() >= vals.len(),
        forall|j: int| 0 <= j < i ==> define_from(vals, n, v, i)[j] == vals[j],
    decreases vals.len() - i,
{
    if i < vals.len() && vals[i as int].0 != n && key_less(vals[i as int].0, n) {
        lemma_define_keeps_prefix(vals, n, v, i + 1);
    }
}

proof fn lemma_value_define(vals: Seq<(Seq<char>, ValueV)>, n: Seq<char>, v: ValueV, m: Seq<char>, i: nat)
    requires
        i <= vals.len(),
    ensures
        value_from(define_from(vals, n, v, i), m, i) == if m == n {
            Some(v)
        } else {
            value_from(vals, m, i)
        },
    decreases vals.len() - i,
{
    let r = define_from(vals, n, v, i);
    if i >= vals.len() {
        assert(r == vals.push((n, v)));
        if m != n {
            assert(index_from(r, m, i) == index_from(r, m, i + 1));
        }
    } else if vals[i as int].0 == n {
        assert(r == vals.update(i as int, (n, v)));
        if m != n {
            lemma_value_from_agree_tail(vals, r, m, i + 1);
        }
    } else if !key_less(vals[i as int].0, n) {
        assert(r == vals.insert(i as int, (n, v)));
        if m != n {
            lemma_value_from_shifted(vals, r, m, i);
            lemma_index_from(vals, m, i);
        }
    } else {
        lemma_value_define(vals, n, v, m, i + 1);
        lemma_define_keeps_prefix(vals, n, v, i + 1);
        assert(r[i as int] == vals[i as int]);
    }
}

/// Past position `i`, two sequences that agree from `i` on give the same
/// first value for `m` when scanning from `i`.
proof fn lemma_value_from_agree_tail(s: Seq<(Seq<char>, ValueV)>, t: Seq<(Seq<char>, ValueV)>, m: Seq<char>, i: nat)
    requires
        s.len() == t.len(),
        i <= s.len(),
        forall|j: int| i <= j < s.len() ==> s[j] == t[j],
    ensures
        index_from(s, m, i) == index_from(t, m, i),
        index_from(s, m, i) matches Some(k) ==> s[k as int] == t[k as int],
    decreases s.len() - i,
{
    lemma_index_from(s, m, i);
    if i < s.len() {
        lemma_value_from_agree_tail(s, t, m, i + 1);
    }
}

/// Scanning `t`, which is `s` with one entry inserted at `i`, from `i + 1`
/// finds what scanning `s` from `i` finds, one place further on.
proof fn lemma_value_from_shifted(s: Seq<(Seq<char>, ValueV)>, t: Seq<(Seq<char>, ValueV)>, m: Seq<char>, i: nat)
    requires
        i <= s.len(),
        t.len() == s.len() + 1,
        forall|j: int| i <= j < s.len() ==> t[j + 1] == s[j],
    ensures
        match index_from(s, m, i) {
            Some(k) => index_from(t, m, i + 1) == Some(k + 1),
            None => index_from(t, m, i + 1) is None,
        },
    decreases s.len() - i,
{
    if i < s.len() {
        lemma_value_from_shifted(s, t, m, i + 1);
    }
}

/// Defining `name` in a scope that is not held: looking `name` up there
/// gives the value defined.
pub proof fn law_get_after_define(h: Seq<ScopeV>, env: nat, name: Seq<char>, v: ValueV)
    requires
        env < h.len(),
        !h[env as int].borrowed,
    ensures
        lookup(define(h, env, name, v), env, name) == Lookup::Found(v),
{
    lemma_value_define(h[env as int].values, name, v, name, 0);
    let h2 = define(h, env, name, v);
    lemma_index_from(h2[env as int].values, name, 0);
}

proof fn lemma_index_from_skip(vals: Seq<(Seq<char>, ValueV)>, m: Seq<char>, a: nat, b: nat)
    requires
        a <= b <= vals.len(),
        forall|j: int| a <= j < b ==> vals[j].0 != m,
    ensures
        index_from(vals, m, a) == index_from(vals, m, b),
    decreases b - a,
{
    if a < b {
        lemma_index_from_skip(vals, m, a + 1, b);
    }
}

proof fn lemma_index_from_before(vals: Seq<(Seq<char>, ValueV)>, m: Seq<char>, i: nat)
    ensures
        index_from(vals, m, i) matches Some(k) ==> forall|j: int| i <= j < k ==> vals[j].0 != m,
        index_from(vals, m, i) is None ==> forall|j: int| i <= j < vals.len() ==> vals[j].0 != m,
    decreases vals.len() - i,
{
    if i < vals.len() && vals[i as int].0 != m {
        lemma_index_from_before(vals, m, i + 1);
    }
}

/// Defining `name` leaves every other name as it was, seen from anywhere.
pub proof fn law_define_keeps_other_names(h: Seq<ScopeV>, env: nat, name: Seq<char>, v: ValueV, from: nat, other: Seq<char>)
    requires
        env < h.len(),
        other != name,
    ensures
        lookup(define(h, env, name, v), from, other) == lookup(h, from, other),
    decreases from,
{
    let h2 = define(h, env, name, v);
    if from < h.len() && !h[from as int].borrowed {
        if from == env {
            lemma_value_define(h[env as int].values, name, v, other, 0);
            lemma_index_from(h2[env as int].values, other, 0);
            lemma_index_from(h[env as int].values, other, 0);
        }
        if let Some(e) = h[from as int].enclosing {
            if e < from {
                law_define_keeps_other_names(h, env, name, v, e, other);
            }
        }
    }
}

/// A lookup only visits environments at or below where it starts.
pub proof fn law_lookup_ignores_later_scopes(h: Seq<ScopeV>, b: nat, x: ScopeV, from: nat, name: Seq<char>)
    requires
        from < b < h.len(),
    ensures
        lookup(h.update(b as int, x), from, name) == lookup(h, from, name),
    decreases from,
{
    if !h[from as int].borrowed {
        if let Some(e) = h[from as int].enclosing {
            if e < from {
                law_lookup_ignores_later_scopes(h, b, x, e, name);
            }
        }
    }
}

proof fn lemma_lookup_push(h: Seq<ScopeV>, x: ScopeV, from: nat, name: Seq<char>)
    requires
        from < h.len(),
    ensures
        lookup(h.push(x), from, name) == lookup(h, from, name),
    decreases from,
{
    assert(h.push(x)[from as int] == h[from as int]);
    if !h[from as int].borrowed {
        if let Some(e) = h[from as int].enclosing {
            if e < from {
                lemma_lookup_push(h, x, e, name);
            }
        }
    }
}

/// A new block sees every variable of the environment it is nested in.
pub proof fn law_new_block_sees_enclosing(h: Seq<ScopeV>, e: nat, name: Seq<char>)
    requires
        e < h.len(),
    ensures
        lookup(h.push(fresh_scope(Some(e))), h.len(), name) == lookup(h, e, name),
{
    lemma_lookup_push(h, fresh_scope(Some(e)), e, name);
    assert(index_of(Seq::<(Seq<char>, ValueV)>::empty(), name) is None);
}

/// Defining a name in a block shadows it there and leaves the enclosing
/// environment's variable as it was.
pub proof fn law_shadowing(h: Seq<ScopeV>, e: nat, name: Seq<char>, v: ValueV)
    requires
        e < h.len(),
    ensures
        lookup(define(h.push(fresh_scope(Some(e))), h.len(), name, v), h.len(), name) == Lookup::Found(v),
        lookup(define(h.push(fresh_scope(Some(e))), h.len(), name, v), e, name) == lookup(h, e, name),
{
    let h1 = h.push(fresh_scope(Some(e)));
    law_get_after_define(h1, h.len(), name, v);
    law_lookup_ignores_later_scopes(h1, h.len(), define(h1, h.len(), name, v)[h.len() as int], e, name);
    assert(define(h1, h.len(), name, v) == h1.update(h.len() as int, define(h1, h.len(), name, v)[h.len() as int]));
    lemma_lookup_push(h, fresh_scope(Some(e)), e, name);
}

/// Assigning reports what looking the name up would give: the old value,
/// or that there is no such variable.
pub proof fn law_assign_returns_lookup(h: Seq<ScopeV>, env: nat, name: Seq<char>, v: ValueV)
    ensures
        assign(h, env, name, v).1 == lookup(h, env, name),
    decreases env,
{
    if env < h.len() && !h[env as int].borrowed && index_of(h[env as int].values, name) is None {
        if let Some(e) = h[env as int].enclosing {
            if e < env {
                law_assign_returns_lookup(h, e, name, v);
            }
        }
    }
}

/// Assignment never makes a variable: where there is none, nothing changes.
pub proof fn law_assign_never_defines(h: Seq<ScopeV>, env: nat, name: Seq<char>, v: ValueV)
    requires
        lookup(h, env, name) is Missing,
    ensures
        assign(h, env, name, v) == (h, Lookup::Missing),
{
    law_assign_returns_lookup(h, env, name, v);
    lemma_assign_shape(h, env, name, v);
}

proof fn lemma_assign_below(h: Seq<ScopeV>, env: nat, name: Seq<char>, v: ValueV)
    ensures
        assign(h, env, name, v).0.len() == h.len(),
        forall|j: int| env < j < h.len() ==> assign(h, env, name, v).0[j] == h[j],
    decreases env,
{
    lemma_assign_shape(h, env, name, v);
    if env < h.len() && !h[env as int].borrowed && index_of(h[env as int].values, name) is None {
        if let Some(e) = h[env as int].enclosing {
            if e < env {
                lemma_assign_below(h, e, name, v);
            }
        }
    }
}

/// After an assignment that found its variable, looking the name up from
/// the same place gives the value assigned.
pub proof fn law_get_after_assign(h: Seq<ScopeV>, env: nat, name: Seq<char>, v: ValueV)
    requires
        assign(h, env, name, v).1 is Found,
    ensures
        lookup(assign(h, env, name, v).0, env, name) == Lookup::Found(v),
    decreases env,
{
    let h2 = assign(h, env, name, v).0;
    match index_of(h[env as int].values, name) {
        Some(k) => {
            let vals = h[env as int].values;
            let vals2 = vals.update(k as int, (name, v));
            lemma_index_from(vals, name, 0);
            lemma_index_from_before(vals, name, 0);
            lemma_index_from_skip(vals2, name, 0, k);
            assert(h2[env as int].values == vals2);
        },
        None => {
            let e = h[env as int].enclosing->0;
            law_get_after_assign(h, e, name, v);
            lemma_assign_below(h, e, name, v);
            assert(h2[env as int] == h[env as int]);
        },
    }
}

proof fn lemma_assign_push(h: Seq<ScopeV>, x: ScopeV, env: nat, name: Seq<char>, v: ValueV)
    requires
        env < h.len(),
    ensures
        assign(h.push(x), env, name, v) == (assign(h, env, name, v).0.push(x), assign(h, env, name, v).1),
    decreases env,
{
    let hp = h.push(x);
    assert(hp[env as int] == h[env as int]);
    lemma_assign_shape(h, env, name, v);
    if !h[env as int].borrowed {
        match index_of(h[env as int].values, name) {
            Some(k) => {
                assert(hp.update(env as int, ScopeV { values: h[env as int].values.update(k as int, (name, v)), ..h[env as int] })
                    =~= h.update(env as int, ScopeV { values: h[env as int].values.update(k as int, (name, v)), ..h[env as int] }).push(x));
            },
            None => {
                if let Some(e) = h[env as int].enclosing {
                    if e < env {
                        lemma_assign_push(h, x, e, name, v);
                    } else {
                        assert(hp =~= h.push(x));
                    }
                } else {
                    assert(hp =~= h.push(x));
                }
            },
        }
    } else {
        assert(hp =~= h.push(x));
    }
}

/// Assigning from a new block assigns to the enclosing environment's
/// variable.
pub proof fn law_assign_through_block(h: Seq<ScopeV>, e: nat, name: Seq<char>, v: ValueV)
    requires
        e < h.len(),
    ensures
        assign(h.push(fresh_scope(Some(e))), h.len(), name, v) == (
            assign(h, e, name, v).0.push(fresh_scope(Some(e))),
            assign(h, e, name, v).1,
        ),
{
    assert(index_of(Seq::<(Seq<char>, ValueV)>::empty(), name) is None);
    lemma_assign_push(h, fresh_scope(Some(e)), e, name, v);
}

/// The variables of a scope are in strictly increasing order of name, as
/// in an ordered map: no name occurs twice.
pub open spec fn names_in_order(vals: Seq<(Seq<char>, ValueV)>) -> bool {
    forall|i: int, j: int| 0 <= i < j < vals.len() ==> key_less(#[trigger] vals[i].0, #[trigger] vals[j].0)
}

proof fn lemma_key_less_irreflexive(a: Seq<char>, i: nat)
    ensures
        !key_less_from(a, a, i),
    decreases a.len() - i,
{
    if i < a.len() {
        lemma_key_less_irreflexive(a, i + 1);
    }
}

proof fn lemma_key_less_total(a: Seq<char>, b: Seq<char>, i: nat)
    requires
        i <= a.len(),
        i <= b.len(),
        a.subrange(0, i as int) == b.subrange(0, i as int),
        a != b,
    ensures
        key_less_from(a, b, i) || key_less_from(b, a, i),
    decreases a.len() - i,
{
    if i < a.len() && i < b.len() && a[i as int] == b[i as int] {
        assert(a.subrange(0, i + 1int) =~= a.subrange(0, i as int).push(a[i as int]));
        assert(b.subrange(0, i + 1int) =~= b.subrange(0, i as int).push(b[i as int]));
        lemma_key_less_total(a, b, i + 1);
    } else if i >= a.len() && i >= b.len() {
        assert(a =~= a.subrange(0, i as int));
        assert(b =~= b.subrange(0, i as int));
    }
}

proof fn lemma_key_less_transitive(a: Seq<char>, b: Seq<char>, c: Seq<char>, i: nat)
    requires
        key_less_from(a, b, i),
        key_less_from(b, c, i),
    ensures
        key_less_from(a, c, i),
    decreases a.len() - i,
{
    if i < a.len() && i < b.len() && i < c.len() && a[i as int] == b[i as int] && b[i as int] == c[i as int] {
        lemma_key_less_transitive(a, b, c, i + 1);
    }
}

proof fn lemma_define_in_order(vals: Seq<(Seq<char>, ValueV)>, n: Seq<char>, v: ValueV, i: nat)
    requires
        i <= vals.len(),
        names_in_order(vals),
        forall|j: int| 0 <= j < i ==> key_less(vals[j].0, n),
    ensures
        names_in_order(define_from(vals, n, v, i)),
    decreases vals.len() - i,
{
    let r = define_from(vals, n, v, i);
    if i >= vals.len() {
        assert(r == vals.push((n, v)));
        assert forall|a: int, b: int| 0 <= a < b < r.len() implies key_less(#[trigger] r[a].0, #[trigger] r[b].0) by {
            if b == vals.len() {
                assert(r[a] == vals[a]);
            } else {
                assert(r[a] == vals[a] && r[b] == vals[b]);
            }
        }
    } else if vals[i as int].0 == n {
        assert(r == vals.update(i as int, (n, v)));
        assert forall|a: int, b: int| 0 <= a < b < r.len() implies key_less(#[trigger] r[a].0, #[trigger] r[b].0) by {
            assert(r[a].0 == vals[a].0 && r[b].0 == vals[b].0);
        }
    } else if !key_less(vals[i as int].0, n) {
        assert(r == vals.insert(i as int, (n, v)));
        assert(vals[i as int].0.subrange(0, 0) =~= n.subrange(0, 0));
        lemma_key_less_total(vals[i as int].0, n, 0);
        assert forall|a: int, b: int| 0 <= a < b < r.len() implies key_less(#[trigger] r[a].0, #[trigger] r[b].0) by {
            if a < i && b == i {
                assert(r[a] == vals[a]);
            } else if a < i && b > i {
                assert(r[a] == vals[a] && r[b] == vals[b - 1]);
            } else if a == i {
                assert(r[b] == vals[b - 1]);
                if b - 1 > i {
                    lemma_key_less_transitive(n, vals[i as int].0, vals[b - 1].0, 0);
                }
            } else if b < i {
                assert(r[a] == vals[a] && r[b] == vals[b]);
            } else {
                assert(r[a] == vals[a - 1] && r[b] == vals[b - 1]);
                assert(key_less(vals[a - 1].0, vals[b - 1].0));
            }
        }
    } else {
        lemma_define_in_order(vals, n, v, i + 1);
    }
}

/// Defining keeps the variables of a scope in order of name, so no name
/// occurs twice in it.
pub proof fn law_define_keeps_names_in_order(h: Seq<ScopeV>, env: nat, name: Seq<char>, v: ValueV)
    requires
        env < h.len(),
        names_in_order(h[env as int].values),
    ensures
        names_in_order(define(h, env, name, v)[env as int].values),
{
    lemma_define_in_order(h[env as int].values, name, v, 0);
}

/// Names in order occur once each.
pub proof fn law_names_in_order_are_distinct(vals: Seq<(Seq<char>, ValueV)>, i: int, j: int)
    requires
        names_in_order(vals),
        0 <= i < j < vals.len(),
    ensures
        vals[i].0 != vals[j].0,
{
    lemma_key_less_irreflexive(vals[i].0, 0);
    assert(key_less(vals[i].0, vals[j].0));
}

/// Every environment of the heap keeps its variables in order of name.
pub open spec fn heap_in_order(h: Seq<ScopeV>) -> bool {
    forall|j: int| 0 <= j < h.len() ==> names_in_order(#[trigger] h[j].values)
}

pub proof fn lemma_define_heap_in_order(h: Seq<ScopeV>, env: nat, name: Seq<char>, v: ValueV)
    requires
        env < h.len(),
        heap_in_order(h),
    ensures
        heap_in_order(define(h, env, name, v)),
{
    law_define_keeps_names_in_order(h, env, name, v);
    let h2 = define(h, env, name, v);
    assert forall|j: int| 0 <= j < h2.len() implies names_in_order(#[trigger] h2[j].values) by {
        if j != env {
            assert(h2[j] == h[j]);
        }
    }
}

pub proof fn lemma_assign_heap_in_order(h: Seq<ScopeV>, env: nat, name: Seq<char>, v: ValueV)
    requires
        heap_in_order(h),
    ensures
        heap_in_order(assign(h, env, name, v).0),
    decreases env,
{
    lemma_assign_shape(h, env, name, v);
    if env < h.len() && !h[env as int].borrowed {
        match index_of(h[env as int].values, name) {
            Some(k) => {
                let vals = h[env as int].values;
                let vals2 = vals.update(k as int, (name, v));
                lemma_index_from(vals, name, 0);
                assert(names_in_order(vals2)) by {
                    assert forall|a: int, b: int| 0 <= a < b < vals2.len() implies key_less(#[trigger] vals2[a].0, #[trigger] vals2[b].0) by {
                        assert(vals2[a].0 == vals[a].0 && vals2[b].0 == vals[b].0);
                    }
                }
                let h2 = assign(h, env, name, v).0;
                assert forall|j: int| 0 <= j < h2.len() implies names_in_order(#[trigger] h2[j].values) by {
                    if j != env {
                        assert(h2[j] == h[j]);
                    }
                }
            },
            None => {
                if let Some(e) = h[env as int].enclosing {
                    if e < env {
                        lemma_assign_heap_in_order(h, e, name, v);
                    }
                }
            },
        }
    }
}

pub proof fn lemma_push_fresh_in_order(h: Seq<ScopeV>, enclosing: Option<nat>)
    requires
        heap_in_order(h),
    ensures
        heap_in_order(h.push(fresh_scope(enclosing))),
{
    let h2 = h.push(fresh_scope(enclosing));
    assert forall|j: int| 0 <= j < h2.len() implies names_in_order(#[trigger] h2[j].values) by {
        if j < h.len() {
            assert(h2[j] == h[j]);
        }
    }
}

} // verus!
