use vstd::prelude::*;

use crate::builtins::DefaultFunction;

verus! {

/// A number that tells apart two names with the same text.
#[derive(Clone, Copy, Debug, PartialEq, Eq, Structural)]
pub struct Unique {
    pub value: i64,
}

impl Unique {
    pub fn new(value: i64) -> (r: Unique)
        ensures
            r.value == value,
    {
        Unique { value }
    }
}

/// A variable named by its text and a uniqueness number.
#[derive(Clone, Debug, PartialEq, Eq)]
pub struct Name {
    pub text: String,
    pub unique: Unique,
}

impl View for Name {
    type V = (Seq<char>, int);

    open spec fn view(&self) -> (Seq<char>, int) {
        (self.text@, self.unique.value as int)
    }
}

/// A variable given by its position: the number of binders between it and its own.
#[derive(Clone, Copy, Debug, PartialEq, Eq, Structural)]
pub struct DeBruijn {
    pub index: u64,
}

impl DeBruijn {
    pub fn new(index: u64) -> (r: DeBruijn)
        ensures
            r.index == index,
    {
        DeBruijn { index }
    }
}

impl View for DeBruijn {
    type V = nat;

    open spec fn view(&self) -> nat {
        self.index as nat
    }
}

/// A positional variable that keeps its text for display.
#[derive(Clone, Debug, PartialEq, Eq)]
pub struct NamedDeBruijn {
    pub text: String,
    pub index: DeBruijn,
}

impl View for NamedDeBruijn {
    type V = (Seq<char>, nat);

    open spec fn view(&self) -> (Seq<char>, nat) {
        (self.text@, self.index.index as nat)
    }
}

/// A literal value.
#[derive(Clone, Debug, PartialEq, Eq)]
pub enum Constant {
    Integer(i64),
    ByteString(Vec<u8>),
    String(String),
    Char(char),
    Unit,
    Bool(bool),
}

/// What a literal value is, in mathematical terms.
pub enum ConstantModel {
    Integer(int),
    ByteString(Seq<u8>),
    String(Seq<char>),
    Char(char),
    Unit,
    Bool(bool),
}

impl View for Constant {
    type V = ConstantModel;

    open spec fn view(&self) -> ConstantModel {
        match self {
            Constant::Integer(i) => ConstantModel::Integer(*i as int),
            Constant::ByteString(b) => ConstantModel::ByteString(b@),
            Constant::String(s) => ConstantModel::String(s@),
            Constant::Char(c) => ConstantModel::Char(*c),
            Constant::Unit => ConstantModel::Unit,
            Constant::Bool(b) => ConstantModel::Bool(*b),
        }
    }
}

/// A node of a program, over some representation `T` of variables.
#[derive(Debug, PartialEq, Eq)]
pub enum Term<T> {
    Var(T),
    Delay(Box<Term<T>>),
    Lambda { parameter_name: T, body: Box<Term<T>> },
    Apply { function: Box<Term<T>>, argument: Box<Term<T>> },
    Constant(Constant),
    Force(Box<Term<T>>),
    Error,
    Builtin(DefaultFunction),
}

/// What a term is, with each variable replaced by its model `B`.
pub enum TermModel<B> {
    Var(B),
    Delay(Box<TermModel<B>>),
    Lambda { parameter_name: B, body: Box<TermModel<B>> },
    Apply { function: Box<TermModel<B>>, argument: Box<TermModel<B>> },
    Constant(ConstantModel),
    Force(Box<TermModel<B>>),
    Error,
    Builtin(DefaultFunction),
}

pub open spec fn term_model<T: View>(t: &Term<T>) -> TermModel<T::V>
    decreases t,
{
    match t {
        Term::Var(v) => TermModel::Var(v@),
        Term::Delay(b) => TermModel::Delay(Box::new(term_model(&**b))),
        Term::Lambda { parameter_name, body } => TermModel::Lambda {
            parameter_name: parameter_name@,
            body: Box::new(term_model(&**body)),
        },
        Term::Apply { function, argument } => TermModel::Apply {
            function: Box::new(term_model(&**function)),
            argument: Box::new(term_model(&**argument)),
        },
        Term::Constant(c) => TermModel::Constant(c@),
        Term::Force(b) => TermModel::Force(Box::new(term_model(&**b))),
        Term::Error => TermModel::Error,
        Term::Builtin(f) => TermModel::Builtin(*f),
    }
}

impl<T: View> View for Term<T> {
    type V = TermModel<T::V>;

    open spec fn view(&self) -> TermModel<T::V> {
        term_model(self)
    }
}

/// A compiled program: a three-part version and a root term.
#[derive(Debug, PartialEq, Eq)]
pub struct Program<T> {
    pub version: (u64, u64, u64),
    pub term: Term<T>,
}

pub struct ProgramModel<B> {
    pub version: (nat, nat, nat),
    pub term: TermModel<B>,
}

impl<T: View> View for Program<T> {
    type V = ProgramModel<T::V>;

    open spec fn view(&self) -> ProgramModel<T::V> {
        ProgramModel {
            version: (self.version.0 as nat, self.version.1 as nat, self.version.2 as nat),
            term: self.term@,
        }
    }
}

} // verus!
