use vstd::prelude::*;

verus! {

/// The built-in operations and special forms of the language.
#[derive(PartialEq, Eq, Structural, Clone, Copy, Debug)]
pub enum Form {
    Add,
    Subtract,
    Car,
    Cdr,
    Define,
    Print,
}

/// The model of an error: what went wrong, with names as character sequences.
pub enum Fault {
    UnexpectedEnd,
    UnexpectedClose,
    UndefinedSymbol(Seq<char>),
    UndefinedFunction(Seq<char>),
    EmptyList,
    WrongArity(Form),
    WrongType(Form),
    Overflow(Form),
}

/// An error of lexing, parsing or evaluation.
#[derive(Debug)]
pub enum LispError {
    /// The tokens ran out where an expression or a `)` was needed.
    UnexpectedEnd,
    /// A `)` stood where an expression was needed.
    UnexpectedClose,
    /// A symbol with no binding was evaluated.
    UndefinedSymbol(String),
    /// A list was headed by a symbol that names no operation.
    UndefinedFunction(String),
    /// The empty list was evaluated.
    EmptyList,
    /// An operation got a number of arguments it does not take.
    WrongArity(Form),
    /// An operation got an argument of a kind it does not take.
    WrongType(Form),
    /// An arithmetic result left the range of the number type.
    Overflow(Form),
}

impl View for LispError {
    type V = Fault;

    open spec fn view(&self) -> Fault {
        match self {
            LispError::UnexpectedEnd => Fault::UnexpectedEnd,
            LispError::UnexpectedClose => Fault::UnexpectedClose,
            LispError::UndefinedSymbol(s) => Fault::UndefinedSymbol(s@),
            LispError::UndefinedFunction(s) => Fault::UndefinedFunction(s@),
            LispError::EmptyList => Fault::EmptyList,
            LispError::WrongArity(f) => Fault::WrongArity(*f),
            LispError::WrongType(f) => Fault::WrongType(*f),
            LispError::Overflow(f) => Fault::Overflow(*f),
        }
    }
}

/// The name by which the language calls an operation.
pub open spec fn form_name(f: Form) -> Seq<char> {
    match f {
        Form::Add => "+"@,
        Form::Subtract => "-"@,
        Form::Car => "car"@,
        Form::Cdr => "cdr"@,
        Form::Define => "define"@,
        Form::Print => "print"@,
    }
}

/// The message for an operation given a number of arguments it does not take.
pub open spec fn arity_message(f: Form) -> Seq<char> {
    match f {
        Form::Add => "Invalid number of arguments for addition"@,
        Form::Subtract => "At least one argument is required for subtraction"@,
        Form::Car => "Expected exactly one argument for car"@,
        Form::Cdr => "Expected exactly one argument for cdr"@,
        Form::Define => "Invalid number of arguments for 'define'"@,
        Form::Print => "Invalid number of arguments for 'print'"@,
    }
}

/// The message for an operation given an argument of a kind it does not take.
pub open spec fn type_message(f: Form) -> Seq<char> {
    match f {
        Form::Add => "Invalid argument type for addition"@,
        Form::Subtract => "Invalid argument type for subtraction"@,
        Form::Car => "Invalid argument type for car"@,
        Form::Cdr => "Invalid argument type for cdr"@,
        Form::Define => "Expected a symbol for the variable name"@,
        Form::Print => "Invalid argument type for 'print'"@,
    }
}

/// The human-readable message of a fault.
pub open spec fn fault_message(f: Fault) -> Seq<char> {
    match f {
        Fault::UnexpectedEnd => "unexpected end of input"@,
        Fault::UnexpectedClose => "unexpected close paren"@,
        Fault::UndefinedSymbol(s) => "undefined symbol: "@ + s,
        Fault::UndefinedFunction(s) => "undefined function: "@ + s,
        Fault::EmptyList => "cannot evaluate an empty list"@,
        Fault::WrongArity(op) => arity_message(op),
        Fault::WrongType(op) => type_message(op),
        Fault::Overflow(op) => "number out of range in "@ + form_name(op),
    }
}

impl Form {
    /// The name by which the language calls the operation.
    pub fn name(&self) -> (r: &'static str)
        ensures
            r@ == form_name(*self),
    {
        match self {
            Form::Add => "+",
            Form::Subtract => "-",
            Form::Car => "car",
            Form::Cdr => "cdr",
            Form::Define => "define",
            Form::Print => "print",
        }
    }

    /// The message for the operation given a number of arguments it does
    /// not take.
    pub fn arity_message(&self) -> (r: &'static str)
        ensures
            r@ == arity_message(*self),
    {
        match self {
            Form::Add => "Invalid number of arguments for addition",
            Form::Subtract => "At least one argument is required for subtraction",
            Form::Car => "Expected exactly one argument for car",
            Form::Cdr => "Expected exactly one argument for cdr",
            Form::Define => "Invalid number of arguments for 'define'",
            Form::Print => "Invalid number of arguments for 'print'",
        }
    }

    /// The message for the operation given an argument of a kind it does not
    /// take.
    pub fn type_message(&self) -> (r: &'static str)
        ensures
            r@ == type_message(*self),
    {
        match self {
            Form::Add => "Invalid argument type for addition",
            Form::Subtract => "Invalid argument type for subtraction",
            Form::Car => "Invalid argument type for car",
            Form::Cdr => "Invalid argument type for cdr",
            Form::Define => "Expected a symbol for the variable name",
            Form::Print => "Invalid argument type for 'print'",
        }
    }
}

impl LispError {
    /// The human-readable message of the error.
    pub fn message(&self) -> (r: String)
        ensures
            r@ == fault_message(self@),
    {
        match self {
            LispError::UnexpectedEnd => String::from_str("unexpected end of input"),
            LispError::UnexpectedClose => String::from_str("unexpected close paren"),
            LispError::UndefinedSymbol(s) => String::from_str("undefined symbol: ").concat(s.as_str()),
            LispError::UndefinedFunction(s) => String::from_str("undefined function: ").concat(
                s.as_str(),
            ),
            LispError::EmptyList => String::from_str("cannot evaluate an empty list"),
            LispError::WrongArity(f) => String::from_str(f.arity_message()),
            LispError::WrongType(f) => String::from_str(f.type_message()),
            LispError::Overflow(f) => String::from_str("number out of range in ").concat(f.name()),
        }
    }
}

} // verus!
