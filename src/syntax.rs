use vstd::prelude::*;

verus! {

/// The left-hand side of an assignment.
pub enum AssignTarget {
    /// A plain name.
    Name(String),
    /// Anything else (an attribute, a subscript, a tuple).
    Other,
}

/// The right-hand side of an assignment, as far as the extractor reads it.
pub enum AssignValue {
    /// A string literal.
    Str(String),
    /// A list literal; the names it may hold are not read.
    List,
    /// Anything else.
    Other,
}

/// An assignment statement directly inside a class body.
pub struct AssignStmt {
    pub targets: Vec<AssignTarget>,
    pub value: AssignValue,
    /// Byte offset of the statement's start in the file.
    pub start: usize,
    /// The statement's source text, verbatim.
    pub text: String,
}

/// A decorator of a method, by its shape.
pub enum Decorator {
    /// `@base.attr`; `base` is given where it is a plain name.
    Attribute { base: Option<String>, attr: String },
    /// `@base.attr(...)`: a call whose callee is an attribute access; `base`
    /// is given where it is a plain name.
    CallOfAttribute { base: Option<String> },
    /// Any other decorator.
    Other,
}

/// A function definition directly inside a class body.
pub struct FunctionDef {
    pub name: String,
    pub decorators: Vec<Decorator>,
    /// Positional parameter names, in order.
    pub args: Vec<String>,
    /// The `*name` parameter.
    pub vararg: Option<String>,
    /// Keyword-only parameter names, in order.
    pub kwonlyargs: Vec<String>,
    /// The `**name` parameter.
    pub kwarg: Option<String>,
    /// The literal string that stands as the body's first statement, if any.
    pub doc: Option<String>,
    /// Byte offset of the definition's start in the file.
    pub start: usize,
}

/// A statement directly inside a class body.
pub enum BodyStmt {
    Assign(AssignStmt),
    FunctionDef(FunctionDef),
    Other,
}

/// A class defined at the top level of a file.
pub struct ClassDef {
    pub body: Vec<BodyStmt>,
}

pub open spec fn is_api(base: Option<String>) -> bool {
    base is Some && base->0@ == "api"@
}

/// A decorator that keeps a method out of the documentation.
pub open spec fn suppresses(d: Decorator) -> bool {
    match d {
        Decorator::Attribute { base, attr } => attr@ == "model"@ || is_api(base),
        Decorator::CallOfAttribute { base } => is_api(base),
        Decorator::Other => false,
    }
}

/// A method that carries a suppressing decorator.
pub open spec fn is_suppressed(f: FunctionDef) -> bool {
    exists|i: int| 0 <= i < f.decorators@.len() && suppresses(#[trigger] f.decorators@[i])
}

/// Whether `s` reads `word`.
pub fn is_word(s: &String, word: &str) -> (r: bool)
    ensures
        r == (s@ == word@),
{
    let w = word.to_owned();
    s.eq(&w)
}

fn is_api_base(base: &Option<String>) -> (r: bool)
    ensures
        r == is_api(*base),
{
    match base {
        Some(b) => is_word(b, "api"),
        None => false,
    }
}

/// Whether `d` keeps the method it decorates out of the documentation.
pub fn decorator_suppresses(d: &Decorator) -> (r: bool)
    ensures
        r == suppresses(*d),
{
    match d {
        Decorator::Attribute { base, attr } => is_word(attr, "model") || is_api_base(base),
        Decorator::CallOfAttribute { base } => is_api_base(base),
        Decorator::Other => false,
    }
}

/// Whether some decorator of `f` keeps it out of the documentation.
pub fn method_suppressed(f: &FunctionDef) -> (r: bool)
    ensures
        r == is_suppressed(*f),
{
    let mut i: usize = 0;
    while i < f.decorators.len()
        invariant
            0 <= i <= f.decorators@.len(),
            forall|j: int| 0 <= j < i ==> !suppresses(#[trigger] f.decorators@[j]),
        decreases f.decorators@.len() - i,
    {
        if decorator_suppresses(&f.decorators[i]) {
            return true;
        }
        i = i + 1;
    }
    false
}

} // verus!
