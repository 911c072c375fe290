//! How to start one process.
use vstd::prelude::*;

verus! {

/// A program, its arguments and what is set in its environment.
#[derive(Debug)]
pub struct Spawn {
    /// The program.
    pub program: String,
    /// Its arguments.
    pub args: Vec<String>,
    /// What is set in its environment, on top of what is there.
    pub env: Vec<(String, String)>,
}

/// What a [`Spawn`] holds.
pub struct Command {
    pub program: Seq<char>,
    pub args: Seq<Seq<char>>,
    pub env: Seq<(Seq<char>, Seq<char>)>,
}

impl Command {
    /// The command with one more argument.
    pub open spec fn with_arg(self, arg: Seq<char>) -> Command {
        Command { args: self.args.push(arg), ..self }
    }

    /// The command with a flag and its value.
    pub open spec fn with_flag(self, flag: Seq<char>, value: Seq<char>) -> Command {
        self.with_arg(flag).with_arg(value)
    }

    /// What an operator types to run it: the environment, the program and
    /// the arguments, a blank between two neighbours.
    pub open spec fn typed(self) -> Seq<char> {
        environment_text(self.env) + self.program + arguments_text(self.args)
    }
}

/// Each variable and its value, a blank after each.
pub open spec fn environment_text(env: Seq<(Seq<char>, Seq<char>)>) -> Seq<char>
    decreases env.len(),
{
    if env.len() == 0 {
        Seq::empty()
    } else {
        environment_text(env.drop_last()) + env.last().0 + "="@ + env.last().1 + " "@
    }
}

/// Each argument, a blank before each.
pub open spec fn arguments_text(args: Seq<Seq<char>>) -> Seq<char>
    decreases args.len(),
{
    if args.len() == 0 {
        Seq::empty()
    } else {
        arguments_text(args.drop_last()) + " "@ + args.last()
    }
}

impl View for Spawn {
    type V = Command;

    open spec fn view(&self) -> Command {
        Command {
            program: self.program@,
            args: Seq::new(self.args@.len(), |i: int| self.args@[i]@),
            env: Seq::new(self.env@.len(), |i: int| (self.env@[i].0@, self.env@[i].1@)),
        }
    }
}

impl Spawn {
    /// A program with no arguments and nothing set in its environment.
    pub fn new(program: &str) -> (r: Spawn)
        ensures
            r@ == (Command { program: program@, args: Seq::empty(), env: Seq::empty() }),
    {
        let r: Spawn = Spawn { program: program.to_owned(), args: Vec::new(), env: Vec::new() };
        proof {
            assert(r@.args =~= Seq::empty());
            assert(r@.env =~= Seq::empty());
        }
        r
    }

    /// Appends one argument.
    pub fn arg(self, arg: &str) -> (r: Spawn)
        ensures
            r@ == self@.with_arg(arg@),
    {
        let mut out: Spawn = self;
        out.args.push(arg.to_owned());
        proof {
            assert(out@.args =~= self@.with_arg(arg@).args);
            assert(out@.env =~= self@.env);
        }
        out
    }

    /// Appends a flag and its value.
    pub fn flag(self, flag: &str, value: &str) -> (r: Spawn)
        ensures
            r@ == self@.with_flag(flag@, value@),
    {
        self.arg(flag).arg(value)
    }

    /// Sets one environment variable.
    pub fn env(self, key: &str, value: &str) -> (r: Spawn)
        ensures
            r@ == (Command { env: self@.env.push((key@, value@)), ..self@ }),
    {
        let mut out: Spawn = self;
        out.env.push((key.to_owned(), value.to_owned()));
        proof {
            assert(out@.env =~= self@.env.push((key@, value@)));
            assert(out@.args =~= self@.args);
        }
        out
    }

    /// Another such command.
    pub fn duplicate(&self) -> (r: Spawn)
        ensures
            r@ == self@,
    {
        let mut args: Vec<String> = Vec::new();
        let mut i: usize = 0;
        while i < self.args.len()
            invariant
                i <= self.args.len(),
                args.len() == i,
                forall|k: int| 0 <= k < i ==> (#[trigger] args@[k])@ == self.args@[k]@,
            decreases self.args.len() - i,
        {
            args.push(self.args[i].clone());
            i = i + 1;
        }
        let mut env: Vec<(String, String)> = Vec::new();
        let mut j: usize = 0;
        while j < self.env.len()
            invariant
                j <= self.env.len(),
                env.len() == j,
                forall|k: int|
                    0 <= k < j ==> (#[trigger] env@[k]).0@ == self.env@[k].0@ && env@[k].1@
                        == self.env@[k].1@,
            decreases self.env.len() - j,
        {
            env.push((self.env[j].0.clone(), self.env[j].1.clone()));
            j = j + 1;
        }
        let r: Spawn = Spawn { program: self.program.clone(), args, env };
        proof {
            assert(r@.args =~= self@.args);
            assert(r@.env =~= self@.env);
        }
        r
    }

    /// What an operator types to run this by hand.
    pub fn recipe(&self) -> (r: String)
        ensures
            r@ == self@.typed(),
    {
        let mut out: String = String::new();
        let mut i: usize = 0;
        while i < self.env.len()
            invariant
                i <= self.env.len(),
                out@ == environment_text(self@.env.take(i as int)),
            decreases self.env.len() - i,
        {
            proof {
                assert(self@.env.take(i + 1).drop_last() =~= self@.env.take(i as int));
            }
            out.append(self.env[i].0.as_str());
            out.append("=");
            out.append(self.env[i].1.as_str());
            out.append(" ");
            i = i + 1;
        }
        proof {
            assert(self@.env.take(i as int) =~= self@.env);
        }
        out.append(self.program.as_str());
        let ghost head = out@;
        let mut j: usize = 0;
        proof {
            assert(head + arguments_text(self@.args.take(0)) =~= head);
        }
        while j < self.args.len()
            invariant
                j <= self.args.len(),
                out@ == head + arguments_text(self@.args.take(j as int)),
            decreases self.args.len() - j,
        {
            let ghost before = out@;
            out.append(" ");
            out.append(self.args[j].as_str());
            proof {
                assert(self@.args.take(j + 1).drop_last() =~= self@.args.take(j as int));
                assert(out@ =~= head + arguments_text(self@.args.take(j + 1)));
            }
            j = j + 1;
        }
        proof {
            assert(self@.args.take(j as int) =~= self@.args);
        }
        out
    }
}

} // verus!
