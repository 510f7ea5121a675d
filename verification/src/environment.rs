//! Variables and their values, in scopes that nest.

use crate::text::same_text;
use crate::token::Token;
use crate::value::{Value, ValueView};
use vstd::prelude::*;

verus! {

/// What can go wrong with a variable.
#[derive(Debug)]
pub enum Error {
    /// No scope holds a variable of this name.
    UndefinedVariable(String),
}

/// What an `Error` stands for.
pub enum ErrorView {
    UndefinedVariable(Seq<char>),
}

impl View for Error {
    type V = ErrorView;

    open spec fn view(&self) -> ErrorView {
        match self {
            Error::UndefinedVariable(name) => ErrorView::UndefinedVariable(name@),
        }
    }
}

impl Clone for Error {
    fn clone(&self) -> (copy: Self)
        ensures
            copy == *self,
    {
        match self {
            Error::UndefinedVariable(name) => Error::UndefinedVariable(name.clone()),
        }
    }
}

/// One scope: the variables defined in it, each with its value.
pub type Scope = Map<Seq<char>, ValueView>;

/// The innermost of the scopes that hold a variable of the name: its
/// index, the scopes being counted from the innermost outward.
pub open spec fn holder(scopes: Seq<Scope>, name: Seq<char>) -> Option<int>
    decreases scopes.len(),
{
    if scopes.len() == 0 {
        None
    } else if scopes[0].contains_key(name) {
        Some(0)
    } else {
        match holder(scopes.drop_first(), name) {
            Some(index) => Some(index + 1),
            None => None,
        }
    }
}

/// The value of the variable: the one that it has in the innermost scope
/// that holds it.
pub open spec fn lookup(scopes: Seq<Scope>, name: Seq<char>) -> Option<ValueView> {
    match holder(scopes, name) {
        Some(index) => Some(scopes[index][name]),
        None => None,
    }
}

/// The scopes once the variable has been given the value in the innermost
/// scope that holds it; the scopes as they are where none holds it.
pub open spec fn assigned(scopes: Seq<Scope>, name: Seq<char>, value: ValueView) -> Seq<Scope> {
    match holder(scopes, name) {
        Some(index) => scopes.update(index, scopes[index].insert(name, value)),
        None => scopes,
    }
}

/// The scopes once the variable has been defined in the innermost one: it
/// is new there, or given a new value.
pub open spec fn defined(scopes: Seq<Scope>, name: Seq<char>, value: ValueView) -> Seq<Scope> {
    scopes.update(0, scopes[0].insert(name, value))
}

/// The scopes behind a new innermost one, which is empty.
pub open spec fn entered(scopes: Seq<Scope>) -> Seq<Scope> {
    seq![Map::empty()] + scopes
}

/// The scopes without the innermost one. The outermost scope is never left.
pub open spec fn left(scopes: Seq<Scope>) -> Seq<Scope> {
    if scopes.len() > 1 {
        scopes.drop_first()
    } else {
        scopes
    }
}

/// Where a scope holds the variable, the scopes hold it, and its index is
/// that of a scope which holds it, with none before.
pub proof fn lemma_holder(scopes: Seq<Scope>, name: Seq<char>)
    ensures
        match holder(scopes, name) {
            Some(index) => 0 <= index < scopes.len() && scopes[index].contains_key(name) && forall|
                k: int,
            |
                0 <= k < index ==> !(#[trigger] scopes[k]).contains_key(name),
            None => forall|k: int| 0 <= k < scopes.len() ==> !(#[trigger] scopes[k]).contains_key(name),
        },
    decreases scopes.len(),
{
    if scopes.len() > 0 && !scopes[0].contains_key(name) {
        let rest = scopes.drop_first();
        lemma_holder(rest, name);
        match holder(rest, name) {
            Some(index) => {
                assert forall|k: int| 0 <= k < index + 1 implies !(#[trigger] scopes[k]).contains_key(
                    name,
                ) by {
                    if k > 0 {
                        assert(scopes[k] == rest[k - 1]);
                    }
                }
            },
            None => {
                assert forall|k: int| 0 <= k < scopes.len() implies !(
                #[trigger] scopes[k]).contains_key(name) by {
                    if k > 0 {
                        assert(scopes[k] == rest[k - 1]);
                    }
                }
            },
        }
    }
}

/// To assign to a variable that no scope holds changes nothing: no scope
/// comes to hold it, the global one neither.
pub proof fn lemma_assign_undefined(scopes: Seq<Scope>, name: Seq<char>, value: ValueView)
    requires
        holder(scopes, name) is None,
    ensures
        assigned(scopes, name, value) == scopes,
        lookup(assigned(scopes, name, value), name) is None,
{
}

/// A variable that has been assigned to has the value, and is held by the
/// scope that held it before.
pub proof fn lemma_assign_defined(scopes: Seq<Scope>, name: Seq<char>, value: ValueView)
    requires
        holder(scopes, name) is Some,
    ensures
        holder(assigned(scopes, name, value), name) == holder(scopes, name),
        lookup(assigned(scopes, name, value), name) == Some(value),
        assigned(scopes, name, value).len() == scopes.len(),
    decreases scopes.len(),
{
    lemma_holder(scopes, name);
    if !scopes[0].contains_key(name) {
        let rest = scopes.drop_first();
        lemma_assign_defined(rest, name, value);
        let index = holder(rest, name).unwrap();
        lemma_holder(rest, name);
        let after = assigned(scopes, name, value);
        assert(after.drop_first() =~= assigned(rest, name, value));
        assert(after[0] == scopes[0]);
    }
}

/// A variable that has been defined has the value, whatever the scopes
/// outside hold.
pub proof fn lemma_define(scopes: Seq<Scope>, name: Seq<char>, value: ValueView)
    requires
        scopes.len() >= 1,
    ensures
        holder(defined(scopes, name, value), name) == Some(0int),
        lookup(defined(scopes, name, value), name) == Some(value),
        defined(scopes, name, value).drop_first() == scopes.drop_first(),
{
    assert(defined(scopes, name, value).drop_first() =~= scopes.drop_first());
}

/// What is defined inside a block is gone with the block: once the block
/// is left, the scopes are what they were before it was entered, and a
/// variable of the same name outside has the value it had.
pub proof fn lemma_block_restores(scopes: Seq<Scope>, name: Seq<char>, value: ValueView)
    requires
        scopes.len() >= 1,
    ensures
        lookup(defined(entered(scopes), name, value), name) == Some(value),
        left(defined(entered(scopes), name, value)) == scopes,
        left(entered(scopes)) == scopes,
{
    lemma_define(entered(scopes), name, value);
    assert(entered(scopes).drop_first() =~= scopes);
}

/// What is assigned inside a block to a variable from outside stays
/// once the block is left.
pub proof fn lemma_block_assigns(scopes: Seq<Scope>, name: Seq<char>, value: ValueView)
    requires
        scopes.len() >= 1,
    ensures
        left(assigned(entered(scopes), name, value)) == assigned(scopes, name, value),
{
    let inside = entered(scopes);
    assert(inside.drop_first() =~= scopes);
    assert(!inside[0].contains_key(name));
    lemma_holder(scopes, name);
    match holder(scopes, name) {
        Some(index) => {
            assert(assigned(inside, name, value).drop_first() =~= assigned(scopes, name, value));
        },
        None => {},
    }
}

/// How a search goes through the innermost scope `head` into the scopes
/// `rest` outside it.
pub proof fn lemma_through(head: Scope, rest: Seq<Scope>, name: Seq<char>, value: ValueView)
    ensures
        head.contains_key(name) ==> holder(seq![head] + rest, name) == Some(0int) && lookup(
            seq![head] + rest,
            name,
        ) == Some(head[name]) && assigned(seq![head] + rest, name, value) == seq![
            head.insert(name, value),
        ] + rest,
        !head.contains_key(name) ==> (holder(seq![head] + rest, name) is Some <==> holder(rest, name)
            is Some) && lookup(seq![head] + rest, name) == lookup(rest, name) && assigned(
            seq![head] + rest,
            name,
            value,
        ) == seq![head] + assigned(rest, name, value),
{
    let scopes = seq![head] + rest;
    assert(scopes.drop_first() =~= rest);
    assert(scopes[0] == head);
    lemma_holder(rest, name);
    if head.contains_key(name) {
        assert(assigned(scopes, name, value) =~= seq![head.insert(name, value)] + rest);
    } else {
        match holder(rest, name) {
            Some(index) => {
                assert(scopes[index + 1] == rest[index]);
                assert(assigned(scopes, name, value) =~= seq![head] + assigned(rest, name, value));
            },
            None => {
                assert(assigned(scopes, name, value) =~= seq![head] + assigned(rest, name, value));
            },
        }
    }
}

/// A variable and its value.
#[derive(Debug)]
struct Binding {
    name: String,
    value: Value,
}

/// The scope that the bindings make: of two with one name, the later one
/// counts.
spec fn scope_of(bindings: Seq<Binding>) -> Scope
    decreases bindings.len(),
{
    if bindings.len() == 0 {
        Map::empty()
    } else {
        scope_of(bindings.drop_last()).insert(bindings.last().name@, bindings.last().value@)
    }
}

/// Whether the binding at `index` is the last of those with the name.
spec fn is_latest(bindings: Seq<Binding>, name: Seq<char>, index: int) -> bool {
    &&& 0 <= index < bindings.len()
    &&& bindings[index].name@ == name
    &&& forall|k: int| index < k < bindings.len() ==> (#[trigger] bindings[k]).name@ != name
}

/// Whether no binding has the name.
spec fn is_absent(bindings: Seq<Binding>, name: Seq<char>) -> bool {
    forall|k: int| 0 <= k < bindings.len() ==> (#[trigger] bindings[k]).name@ != name
}

proof fn lemma_absent(bindings: Seq<Binding>, name: Seq<char>)
    requires
        is_absent(bindings, name),
    ensures
        !scope_of(bindings).contains_key(name),
    decreases bindings.len(),
{
    if bindings.len() > 0 {
        let rest = bindings.drop_last();
        assert forall|k: int| 0 <= k < rest.len() implies (#[trigger] rest[k]).name@ != name by {
            assert(rest[k] == bindings[k]);
        }
        lemma_absent(rest, name);
        assert(bindings.last() == bindings[bindings.len() - 1]);
    }
}

proof fn lemma_latest(bindings: Seq<Binding>, name: Seq<char>, index: int)
    requires
        is_latest(bindings, name, index),
    ensures
        scope_of(bindings).contains_key(name),
        scope_of(bindings)[name] == bindings[index].value@,
    decreases bindings.len(),
{
    if index < bindings.len() - 1 {
        let rest = bindings.drop_last();
        assert forall|k: int| index < k < rest.len() implies (#[trigger] rest[k]).name@ != name by {
            assert(rest[k] == bindings[k]);
        }
        assert(rest[index] == bindings[index]);
        lemma_latest(rest, name, index);
        assert(bindings.last() == bindings[bindings.len() - 1]);
    }
}

proof fn lemma_update(bindings: Seq<Binding>, name: Seq<char>, index: int, changed: Binding)
    requires
        is_latest(bindings, name, index),
        changed.name@ == name,
    ensures
        scope_of(bindings.update(index, changed)) == scope_of(bindings).insert(name, changed.value@),
    decreases bindings.len(),
{
    let after = bindings.update(index, changed);
    if index < bindings.len() - 1 {
        let rest = bindings.drop_last();
        assert forall|k: int| index < k < rest.len() implies (#[trigger] rest[k]).name@ != name by {
            assert(rest[k] == bindings[k]);
        }
        assert(rest[index] == bindings[index]);
        lemma_update(rest, name, index, changed);
        assert(after.drop_last() =~= rest.update(index, changed));
        assert(after.last() == bindings.last());
        assert(bindings.last() == bindings[bindings.len() - 1]);
        assert(scope_of(after) =~= scope_of(bindings).insert(name, changed.value@));
    } else {
        assert(after.drop_last() =~= bindings.drop_last());
        assert(scope_of(after) =~= scope_of(bindings).insert(name, changed.value@));
    }
}

/// A scope, and the scope that encloses it, if one does: a chain that
/// leads from the innermost scope to the global one.
#[derive(Debug)]
pub struct Environment {
    enclosing: Option<Box<Environment>>,
    values: Vec<Binding>,
}

/// The scopes of an environment, from the innermost outward.
pub closed spec fn chain(environment: Environment) -> Seq<Scope>
    decreases environment,
{
    seq![scope_of(environment.values@)] + match environment.enclosing {
        Some(outer) => chain(*outer),
        None => seq![],
    }
}

impl View for Environment {
    type V = Seq<Scope>;

    closed spec fn view(&self) -> Seq<Scope> {
        chain(*self)
    }
}

impl Environment {
    /// An environment has at least its own scope.
    pub proof fn lemma_nonempty(&self)
        ensures
            self@.len() >= 1,
    {
    }

    /// An empty scope inside `enclosing`; the global scope, where nothing
    /// encloses it.
    pub fn new(enclosing: Option<Environment>) -> (environment: Self)
        ensures
            environment@ == match enclosing {
                Some(outer) => entered(outer@),
                None => seq![Map::empty()],
            },
    {
        let ghost outside = match &enclosing {
            Some(outer) => outer@,
            None => seq![],
        };
        let environment = Self {
            enclosing: match enclosing {
                Some(outer) => Some(Box::new(outer)),
                None => None,
            },
            values: Vec::new(),
        };
        assert(environment@ =~= seq![Map::empty()] + outside);
        environment
    }

    /// Opens an empty scope inside the innermost one.
    pub fn enter(&mut self)
        ensures
            final(self)@ == entered(old(self)@),
    {
        let mut outer = Environment { enclosing: None, values: Vec::new() };
        std::mem::swap(self, &mut outer);
        self.enclosing = Some(Box::new(outer));
        assert(self@ =~= entered(old(self)@));
    }

    /// Closes the innermost scope and all that it holds; leaves the global
    /// scope as it is.
    pub fn leave(&mut self)
        ensures
            final(self)@ == left(old(self)@),
    {
        match self.enclosing.take() {
            Some(outer) => {
                assert(old(self)@.drop_first() =~= chain(*outer));
                *self = *outer;
            },
            None => {
                assert(self@ =~= old(self)@);
            },
        }
    }

    /// Where the variable stands among the bindings of this scope.
    fn position(&self, name: &str) -> (found: Option<usize>)
        ensures
            match found {
                Some(index) => is_latest(self.values@, name@, index as int),
                None => is_absent(self.values@, name@),
            },
    {
        let mut index = self.values.len();
        while index > 0
            invariant
                0 <= index <= self.values.len(),
                forall|k: int| index <= k < self.values@.len() ==> (#[trigger] self.values@[k]).name@ != name@,
            decreases index,
        {
            index -= 1;
            if same_text(self.values[index].name.as_str(), name) {
                return Some(index);
            }
        }
        None
    }

    /// Gives the variable the value in the innermost scope that holds it.
    /// Where no scope holds it, nothing changes, and the error names it.
    pub fn assign(&mut self, token: &Token, value: &Value) -> (result: Result<(), Error>)
        ensures
            final(self)@ == assigned(old(self)@, token.lexeme@, value@),
            match result {
                Ok(_) => holder(old(self)@, token.lexeme@) is Some,
                Err(error) => holder(old(self)@, token.lexeme@) is None && error@
                    == ErrorView::UndefinedVariable(token.lexeme@),
            },
        decreases *old(self),
    {
        let name = token.lexeme();
        let ghost head = scope_of(self.values@);
        let ghost rest = match &self.enclosing {
            Some(outer) => chain(**outer),
            None => seq![],
        };
        proof {
            lemma_through(head, rest, name@, value@);
        }
        match self.position(name) {
            Some(index) => {
                let changed = Binding { name: name.to_owned(), value: value.clone() };
                proof {
                    lemma_latest(self.values@, name@, index as int);
                    lemma_update(self.values@, name@, index as int, changed);
                }
                self.values[index] = changed;
                Ok(())
            },
            None => {
                proof {
                    lemma_absent(self.values@, name@);
                }
                match &mut self.enclosing {
                    Some(enclosing) => enclosing.assign(token, value),
                    None => Err(Error::UndefinedVariable(name.to_owned())),
                }
            },
        }
    }

    /// Defines the variable in the innermost scope: it is new there, or
    /// given a new value. The scopes outside are not touched.
    pub fn define(&mut self, name: &str, value: Value)
        ensures
            final(self)@ == defined(old(self)@, name@, value@),
    {
        match self.position(name) {
            Some(index) => {
                let changed = Binding { name: name.to_owned(), value };
                proof {
                    lemma_update(self.values@, name@, index as int, changed);
                }
                self.values[index] = changed;
            },
            None => {
                let ghost bindings = self.values@;
                self.values.push(Binding { name: name.to_owned(), value });
                assert(self.values@.drop_last() =~= bindings);
            },
        }
        assert(self@ =~= defined(old(self)@, name@, value@));
    }

    /// The value of the variable in the innermost scope that holds it.
    pub fn get(&self, token: &Token) -> (result: Result<&Value, Error>)
        ensures
            match result {
                Ok(value) => lookup(self@, token.lexeme@) == Some(value@),
                Err(error) => lookup(self@, token.lexeme@) is None && error@
                    == ErrorView::UndefinedVariable(token.lexeme@),
            },
        decreases *self,
    {
        let name = token.lexeme();
        let ghost head = scope_of(self.values@);
        let ghost rest = match &self.enclosing {
            Some(outer) => chain(**outer),
            None => seq![],
        };
        proof {
            lemma_through(head, rest, name@, ValueView::Nil);
        }
        match self.position(name) {
            Some(index) => {
                proof {
                    lemma_latest(self.values@, name@, index as int);
                }
                Ok(&self.values[index].value)
            },
            None => {
                proof {
                    lemma_absent(self.values@, name@);
                }
                match &self.enclosing {
                    Some(enclosing) => enclosing.get(token),
                    None => Err(Error::UndefinedVariable(name.to_owned())),
                }
            },
        }
    }
}

} // verus!
