use vstd::prelude::*;

verus! {

/// The library's error type. Each variant carries a human-readable message.
#[derive(Debug)]
pub enum Error {
    /// Market data could not be read or validated.
    Data(String),
    /// DSL lexing, parsing or evaluation failed.
    Dsl(String),
    /// A decision tree failed to load or validate.
    Tree(String),
    /// A node could not be evaluated.
    Eval(String),
    /// Tree traversal failed.
    Engine(String),
    /// A backtest run failed.
    Backtest(String),
    /// CSV text could not be read.
    Csv(String),
}

/// The text shown for an error: a category prefix followed by the message.
pub open spec fn error_text(e: Error) -> Seq<char> {
    match e {
        Error::Data(m) => "data error: "@ + m@,
        Error::Dsl(m) => "dsl error: "@ + m@,
        Error::Tree(m) => "tree error: "@ + m@,
        Error::Eval(m) => "eval error: "@ + m@,
        Error::Engine(m) => "engine error: "@ + m@,
        Error::Backtest(m) => "backtest error: "@ + m@,
        Error::Csv(m) => "csv error: "@ + m@,
    }
}

impl Error {
    /// Renders the error as `"<category> error: <message>"`.
    pub fn to_string(&self) -> (s: String)
        ensures
            s@ == error_text(*self),
    {
        let (prefix, m) = match self {
            Error::Data(m) => ("data error: ", m),
            Error::Dsl(m) => ("dsl error: ", m),
            Error::Tree(m) => ("tree error: ", m),
            Error::Eval(m) => ("eval error: ", m),
            Error::Engine(m) => ("engine error: ", m),
            Error::Backtest(m) => ("backtest error: ", m),
            Error::Csv(m) => ("csv error: ", m),
        };
        let mut s = String::from_str(prefix);
        s.append(m.as_str());
        s
    }
}

} // verus!
