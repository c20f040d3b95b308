use vstd::prelude::*;

verus! {

/// What the command line asks for: one infix expression.
pub struct Config {
    pub infix_expression_string: String,
}

/// The message given when the arguments are not a program name and one
/// expression.
pub const USAGE: &'static str = "Provide valid math expression using numbers and operator +-/* without space characters";

impl Config {
    /// Reads the arguments `[program, expression]`; any other count is an
    /// error carrying [`USAGE`].
    pub fn new(args: &[String]) -> (r: Result<Config, &'static str>)
        ensures
            args@.len() == 2 <==> r is Ok,
            r matches Ok(c) ==> c.infix_expression_string@ == args@[1]@,
            r matches Err(msg) ==> msg == USAGE,
    {
        if args.len() != 2 {
            return Err(USAGE);
        }
        let infix_expression_string = args[1].clone();
        Ok(Config { infix_expression_string })
    }
}

} // verus!
