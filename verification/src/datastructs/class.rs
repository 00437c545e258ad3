use vstd::prelude::*;
use super::instance::Instance;
use super::literal::Literal;
use super::values::FunctionCallable;

verus! {

/// The first place in `methods` where a method named `name` stands.
pub open spec fn first_method<'a>(methods: Seq<(String, FunctionCallable<'a>)>, name: Seq<char>) -> Option<int> {
    if exists|i: int| 0 <= i < methods.len() && methods[i].0@ == name {
        Some(
            choose|i: int|
                0 <= i < methods.len() && methods[i].0@ == name && forall|j: int|
                    0 <= j < i ==> methods[j].0@ != name,
        )
    } else {
        None
    }
}

/// A class: its name and its methods by name.
pub struct Class<'a> {
    name: String,
    methods: Vec<(String, FunctionCallable<'a>)>,
}

impl<'a> Class<'a> {
    /// The class's name.
    pub closed spec fn name_text(&self) -> Seq<char> {
        self.name@
    }

    pub closed spec fn methods(&self) -> Seq<(String, FunctionCallable<'a>)> {
        self.methods@
    }

    pub fn new(name: String, methods: Vec<(String, FunctionCallable<'a>)>) -> (c: Class<'a>)
        ensures
            c.name_text() == name@,
            c.methods() == methods@,
    {
        Class { name, methods }
    }

    pub fn name(&self) -> (r: &str)
        ensures
            r@ == self.name_text(),
    {
        self.name.as_str()
    }

    /// The method named `name`; the first one listed, if several are.
    pub fn find_method(&self, name: &String) -> (r: Option<&FunctionCallable<'a>>)
        ensures
            match first_method(self.methods(), name@) {
                Some(i) => r == Some(&self.methods()[i].1),
                None => r is None,
            },
    {
        let mut i: usize = 0;
        while i < self.methods.len()
            invariant
                i <= self.methods@.len(),
                forall|j: int| 0 <= j < i ==> self.methods@[j].0@ != name@,
            decreases self.methods@.len() - i,
        {
            if self.methods[i].0 == *name {
                proof {
                    let k = first_method(self.methods(), name@).unwrap();
                    assert(k == i);
                }
                return Some(&self.methods[i].1);
            }
            i = i + 1;
        }
        None
    }

    /// A class takes no arguments when called.
    pub fn arity(&self) -> (n: usize)
        ensures
            n == 0,
    {
        0
    }

    /// A copy of this class, with the same name and methods.
    pub fn duplicate(&self) -> (r: Class<'a>)
        ensures
            r.name_text() == self.name_text(),
            r.methods() == self.methods(),
    {
        let mut methods: Vec<(String, FunctionCallable<'a>)> = Vec::new();
        let mut i: usize = 0;
        while i < self.methods.len()
            invariant
                i <= self.methods@.len(),
                methods@ == self.methods@.take(i as int),
            decreases self.methods@.len() - i,
        {
            methods.push((self.methods[i].0.clone(), self.methods[i].1.duplicate()));
            i = i + 1;
            assert(methods@ =~= self.methods@.take(i as int));
        }
        assert(methods@ =~= self.methods@);
        Class { name: self.name.clone(), methods }
    }

    /// Calls the class: a new instance of it, with no fields.
    pub fn call(&self) -> (i: Instance<'a>)
        ensures
            i.wf(),
            i.class_name() == self.name_text(),
            i.fields() == Map::<Seq<char>, Literal>::empty(),
    {
        Instance::new(self.duplicate())
    }

    /// How the class is written: `<class NAME>`.
    pub fn text(&self) -> (r: String)
        ensures
            r@ == "<class "@ + self.name_text() + ">"@,
    {
        let mut s = String::from_str("<class ");
        s.append(self.name.as_str());
        s.append(">");
        s
    }
}

} // verus!
