use vstd::prelude::*;
use super::class::Class;
use super::exceptions::RuntimeException;
use super::literal::Literal;
use super::token::Token;
use crate::environment::{bindings_map, distinct_names, lemma_bindings_at, lemma_bindings_push, lemma_bindings_update};

verus! {

/// The text of the error for reading a field that an instance does not have.
pub open spec fn undefined_property_message(name: Seq<char>) -> Seq<char> {
    "Undefined property '"@ + name + "'."@
}

/// An instance of a class, with its fields by name.
pub struct Instance<'a> {
    class: Class<'a>,
    fields: Vec<(String, Literal)>,
}

impl<'a> Instance<'a> {
    /// The fields, as a map from names to values.
    pub closed spec fn fields(&self) -> Map<Seq<char>, Literal> {
        bindings_map(self.fields@)
    }

    /// The name of the instance's class.
    pub closed spec fn class_name(&self) -> Seq<char> {
        self.class.name_text()
    }

    pub closed spec fn wf(&self) -> bool {
        distinct_names(self.fields@)
    }

    /// A new instance of `class`, with no fields.
    pub fn new(class: Class<'a>) -> (i: Instance<'a>)
        ensures
            i.wf(),
            i.class_name() == class.name_text(),
            i.fields() == Map::<Seq<char>, Literal>::empty(),
    {
        let i = Instance { class, fields: Vec::new() };
        assert(i.fields() =~= Map::<Seq<char>, Literal>::empty());
        i
    }

    fn find(&self, name: &String) -> (r: Option<usize>)
        requires
            self.wf(),
        ensures
            match r {
                Some(i) => i < self.fields@.len() && self.fields@[i as int].0@ == name@,
                None => !self.fields().contains_key(name@),
            },
    {
        let mut i: usize = 0;
        while i < self.fields.len()
            invariant
                i <= self.fields@.len(),
                forall|j: int| 0 <= j < i ==> self.fields@[j].0@ != name@,
            decreases self.fields@.len() - i,
        {
            if self.fields[i].0 == *name {
                return Some(i);
            }
            i = i + 1;
        }
        None
    }

    /// The value of the field `name`; an error when the instance has no such field.
    pub fn get(&self, name: &Token) -> (r: Result<Literal, RuntimeException>)
        requires
            self.wf(),
        ensures
            self.fields().contains_key(name.lexeme@) ==> r == Ok::<Literal, RuntimeException>(
                self.fields()[name.lexeme@],
            ),
            !self.fields().contains_key(name.lexeme@) ==> (r matches Err(RuntimeException::Error {
                token,
                message,
            }) && token == *name && message@ == undefined_property_message(name.lexeme@)),
    {
        match self.find(&name.lexeme) {
            Some(i) => {
                proof {
                    lemma_bindings_at(self.fields@, i as int);
                }
                Ok(self.fields[i].1.duplicate())
            },
            None => {
                let mut message = String::from_str("Undefined property '");
                message.append(name.lexeme.as_str());
                message.append("'.");
                Err(RuntimeException::Error { token: name.duplicate(), message })
            },
        }
    }

    /// Sets the field `name` to `value`, adding the field if it is new.
    pub fn set(&mut self, name: &Token, value: Literal)
        requires
            old(self).wf(),
        ensures
            final(self).wf(),
            final(self).class_name() == old(self).class_name(),
            final(self).fields() == old(self).fields().insert(name.lexeme@, value),
    {
        let entry = (name.lexeme.clone(), value);
        match self.find(&name.lexeme) {
            Some(i) => {
                proof {
                    lemma_bindings_update(self.fields@, i as int, entry);
                }
                self.fields.set(i, entry);
            },
            None => {
                proof {
                    lemma_bindings_push(self.fields@, entry);
                }
                self.fields.push(entry);
            },
        }
    }

    /// How the instance is written: `NAME instance`.
    pub fn text(&self) -> (r: String)
        ensures
            r@ == self.class_name() + " instance"@,
    {
        let mut s = String::from_str(self.class.name());
        s.append(" instance");
        s
    }
}

} // verus!
