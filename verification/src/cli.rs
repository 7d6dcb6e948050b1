//! The command line: its options, and what they ask the program to do.

use crate::kalm_score::SUBB_DEFAULT;
use crate::model::Architecture;
use crate::run::SUB_BATCH;
use crate::text::{parse_unsigned, same_text, unsigned_of};
use vstd::prelude::*;

verus! {

/// The port that the server listens on by default.
pub const DEFAULT_PORT: u16 = 8088;

/// Options that take a value.
#[derive(Clone, Copy, Debug, PartialEq, Eq, Structural)]
pub enum Flag {
    Dump,
    Ndocs,
    Subbatch,
    Port,
}

/// The option as it is written.
pub open spec fn flag_text(flag: Flag) -> Seq<char> {
    match flag {
        Flag::Dump => "--dump"@,
        Flag::Ndocs => "--ndocs"@,
        Flag::Subbatch => "--subbatch"@,
        Flag::Port => "--port"@,
    }
}

/// Why a command line is refused.
#[derive(Debug)]
pub enum ArgError {
    /// The option stands at the end, without its value.
    NeedsValue(Flag),
    /// The option's value is not a number that it can hold.
    NotANumber(Flag, String),
    /// A sub-batch cannot be empty.
    ZeroSubBatch,
}

/// An error over views.
pub enum ArgErrorView {
    NeedsValue(Flag),
    NotANumber(Flag, Seq<char>),
    ZeroSubBatch,
}

impl View for ArgError {
    type V = ArgErrorView;

    open spec fn view(&self) -> ArgErrorView {
        match self {
            ArgError::NeedsValue(flag) => ArgErrorView::NeedsValue(*flag),
            ArgError::NotANumber(flag, text) => ArgErrorView::NotANumber(*flag, text@),
            ArgError::ZeroSubBatch => ArgErrorView::ZeroSubBatch,
        }
    }
}

/// What the command line asks for.
#[derive(Debug)]
pub struct Options {
    /// The file that scores are written to.
    pub dump: Option<String>,
    /// The number of documents to score.
    pub ndocs: Option<usize>,
    /// The size of a sub-batch.
    pub sub_batch: Option<usize>,
    pub port: u16,
    pub sweep: bool,
    pub overlap: bool,
    pub perchunk: bool,
    pub serve: bool,
}

/// Options over views.
pub struct OptionsView {
    pub dump: Option<Seq<char>>,
    pub ndocs: Option<usize>,
    pub sub_batch: Option<usize>,
    pub port: u16,
    pub sweep: bool,
    pub overlap: bool,
    pub perchunk: bool,
    pub serve: bool,
}

impl View for Options {
    type V = OptionsView;

    open spec fn view(&self) -> OptionsView {
        OptionsView {
            dump: match self.dump {
                Some(out) => Some(out@),
                None => None,
            },
            ndocs: self.ndocs,
            sub_batch: self.sub_batch,
            port: self.port,
            sweep: self.sweep,
            overlap: self.overlap,
            perchunk: self.perchunk,
            serve: self.serve,
        }
    }
}

/// The options of an empty command line.
pub open spec fn no_options() -> OptionsView {
    OptionsView {
        dump: None,
        ndocs: None,
        sub_batch: None,
        port: DEFAULT_PORT,
        sweep: false,
        overlap: false,
        perchunk: false,
        serve: false,
    }
}

/// The option with a value that an argument is, if it is one.
pub open spec fn flag_of(arg: Seq<char>) -> Option<Flag> {
    if arg == flag_text(Flag::Dump) {
        Some(Flag::Dump)
    } else if arg == flag_text(Flag::Ndocs) {
        Some(Flag::Ndocs)
    } else if arg == flag_text(Flag::Subbatch) {
        Some(Flag::Subbatch)
    } else if arg == flag_text(Flag::Port) {
        Some(Flag::Port)
    } else {
        None
    }
}

/// Options with the value of one of them set.
pub open spec fn with_value(o: OptionsView, flag: Flag, value: Seq<char>) -> Result<
    OptionsView,
    ArgErrorView,
> {
    match flag {
        Flag::Dump => Ok(OptionsView { dump: Some(value), ..o }),
        Flag::Ndocs => match unsigned_of(value, usize::MAX as nat) {
            Some(n) => Ok(OptionsView { ndocs: Some(n as usize), ..o }),
            None => Err(ArgErrorView::NotANumber(flag, value)),
        },
        Flag::Subbatch => match unsigned_of(value, usize::MAX as nat) {
            Some(n) => if n == 0 {
                Err(ArgErrorView::ZeroSubBatch)
            } else {
                Ok(OptionsView { sub_batch: Some(n as usize), ..o })
            },
            None => Err(ArgErrorView::NotANumber(flag, value)),
        },
        Flag::Port => match unsigned_of(value, u16::MAX as nat) {
            Some(n) => Ok(OptionsView { port: n as u16, ..o }),
            None => Err(ArgErrorView::NotANumber(flag, value)),
        },
    }
}

/// Options with a switch set; an argument that is none leaves them as they are.
pub open spec fn with_switch(o: OptionsView, arg: Seq<char>) -> OptionsView {
    if arg == "--sweep"@ {
        OptionsView { sweep: true, ..o }
    } else if arg == "--overlap"@ {
        OptionsView { overlap: true, ..o }
    } else if arg == "--perchunk"@ {
        OptionsView { perchunk: true, ..o }
    } else if arg == "--serve"@ {
        OptionsView { serve: true, ..o }
    } else {
        o
    }
}

/// What the arguments from position `a` on make of the options `o`: an option
/// with a value takes the argument behind it, whatever that is; the first refusal
/// ends the reading.
pub open spec fn options_from(args: Seq<Seq<char>>, a: int, o: OptionsView) -> Result<
    OptionsView,
    ArgErrorView,
>
    decreases args.len() - a,
{
    if a >= args.len() {
        Ok(o)
    } else {
        match flag_of(args[a]) {
            Some(flag) => if a + 1 >= args.len() {
                Err(ArgErrorView::NeedsValue(flag))
            } else {
                match with_value(o, flag, args[a + 1]) {
                    Ok(next) => options_from(args, a + 2, next),
                    Err(e) => Err(e),
                }
            },
            None => options_from(args, a + 1, with_switch(o, args[a])),
        }
    }
}

/// The character views of arguments.
pub open spec fn args_of(args: Seq<String>) -> Seq<Seq<char>> {
    Seq::new(args.len(), |i: int| args[i]@)
}

fn find_flag(arg: &str) -> (r: Option<Flag>)
    ensures
        r == flag_of(arg@),
{
    if same_text(arg, "--dump") {
        Some(Flag::Dump)
    } else if same_text(arg, "--ndocs") {
        Some(Flag::Ndocs)
    } else if same_text(arg, "--subbatch") {
        Some(Flag::Subbatch)
    } else if same_text(arg, "--port") {
        Some(Flag::Port)
    } else {
        None
    }
}

impl Options {
    /// The options of an empty command line.
    pub fn none() -> (r: Self)
        ensures
            r@ == no_options(),
    {
        Options {
            dump: None,
            ndocs: None,
            sub_batch: None,
            port: DEFAULT_PORT,
            sweep: false,
            overlap: false,
            perchunk: false,
            serve: false,
        }
    }

    fn set_value(self, flag: Flag, value: &String) -> (r: Result<Self, ArgError>)
        ensures
            match r {
                Ok(o) => with_value(self@, flag, value@) == Ok::<OptionsView, ArgErrorView>(o@),
                Err(e) => with_value(self@, flag, value@) == Err::<OptionsView, ArgErrorView>(e@),
            },
    {
        match flag {
            Flag::Dump => Ok(Options { dump: Some(value.clone()), ..self }),
            Flag::Ndocs => match parse_unsigned(value.as_str(), usize::MAX) {
                Some(n) => Ok(Options { ndocs: Some(n), ..self }),
                None => Err(ArgError::NotANumber(flag, value.clone())),
            },
            Flag::Subbatch => match parse_unsigned(value.as_str(), usize::MAX) {
                Some(n) => if n == 0 {
                    Err(ArgError::ZeroSubBatch)
                } else {
                    Ok(Options { sub_batch: Some(n), ..self })
                },
                None => Err(ArgError::NotANumber(flag, value.clone())),
            },
            Flag::Port => match parse_unsigned(value.as_str(), u16::MAX as usize) {
                Some(n) => Ok(Options { port: n as u16, ..self }),
                None => Err(ArgError::NotANumber(flag, value.clone())),
            },
        }
    }

    fn set_switch(self, arg: &str) -> (r: Self)
        ensures
            r@ == with_switch(self@, arg@),
    {
        if same_text(arg, "--sweep") {
            Options { sweep: true, ..self }
        } else if same_text(arg, "--overlap") {
            Options { overlap: true, ..self }
        } else if same_text(arg, "--perchunk") {
            Options { perchunk: true, ..self }
        } else if same_text(arg, "--serve") {
            Options { serve: true, ..self }
        } else {
            self
        }
    }

    /// Reads the arguments behind the program's name.
    pub fn parse(args: &Vec<String>) -> (r: Result<Self, ArgError>)
        ensures
            match r {
                Ok(o) => options_from(args_of(args@), 1, no_options()) == Ok::<
                    OptionsView,
                    ArgErrorView,
                >(o@) && (o.sub_batch matches Some(n) ==> n > 0),
                Err(e) => options_from(args_of(args@), 1, no_options()) == Err::<
                    OptionsView,
                    ArgErrorView,
                >(e@),
            },
    {
        let mut options = Self::none();
        let mut a: usize = 1;
        while a < args.len()
            invariant
                options_from(args_of(args@), 1, no_options()) == options_from(
                    args_of(args@),
                    a as int,
                    options@,
                ),
                options.sub_batch matches Some(n) ==> n > 0,
            decreases args@.len() - a,
        {
            match find_flag(args[a].as_str()) {
                Some(flag) => {
                    if a + 1 >= args.len() {
                        return Err(ArgError::NeedsValue(flag));
                    }
                    options =
                    match options.set_value(flag, &args[a + 1]) {
                        Ok(next) => next,
                        Err(e) => return Err(e),
                    };
                    a += 2;
                },
                None => {
                    options = options.set_switch(args[a].as_str());
                    a += 1;
                },
            }
        }
        Ok(options)
    }

    /// The number of documents to score: fewer where their scores are written out.
    pub fn doc_limit(&self) -> (r: usize)
        ensures
            r == doc_limit_of(self@),
    {
        match self.ndocs {
            Some(n) => n,
            None => if self.dump.is_some() {
                3
            } else {
                100
            },
        }
    }

    /// The size of a sub-batch for a model.
    pub fn sub_batch_for(&self, arch: Architecture) -> (r: usize)
        ensures
            r == sub_batch_of(self@, arch),
            self.sub_batch != Some(0usize) ==> r > 0,
    {
        match self.sub_batch {
            Some(n) => n,
            None => match arch {
                Architecture::Nemotron => SUB_BATCH,
                Architecture::Kalm => SUBB_DEFAULT,
            },
        }
    }

    /// What the program is to do.
    pub fn task(&self) -> (r: Task)
        ensures
            r == task_of(self@),
    {
        if self.serve {
            Task::Serve
        } else if self.dump.is_some() {
            Task::Dump
        } else if self.sweep {
            Task::Sweep
        } else if self.perchunk {
            Task::Bench(Mode::PerChunk)
        } else if self.overlap {
            Task::Bench(Mode::Overlap)
        } else {
            Task::Bench(Mode::Deferred)
        }
    }
}

/// How a run is timed.
#[derive(Clone, Copy, Debug, PartialEq, Eq, Structural)]
pub enum Mode {
    /// One barrier over all sub-batches.
    Deferred,
    /// A barrier behind every sub-batch.
    PerChunk,
    /// One barrier, with the padding on a thread of its own.
    Overlap,
}

/// The name of a kind of run.
pub open spec fn mode_text(mode: Mode) -> Seq<char> {
    match mode {
        Mode::Deferred => "deferred-eval"@,
        Mode::PerChunk => "per-chunk-eval"@,
        Mode::Overlap => "overlap"@,
    }
}

impl Mode {
    /// The name of a kind of run.
    pub fn label(&self) -> (r: &'static str)
        ensures
            r@ == mode_text(*self),
    {
        match self {
            Mode::Deferred => "deferred-eval",
            Mode::PerChunk => "per-chunk-eval",
            Mode::Overlap => "overlap",
        }
    }
}

/// What the program is to do.
#[derive(Clone, Copy, Debug, PartialEq, Eq, Structural)]
pub enum Task {
    /// Answer requests.
    Serve,
    /// Write the scores of the sample's documents.
    Dump,
    /// Time sub-batches of several sizes.
    Sweep,
    /// Time one kind of run.
    Bench(Mode),
}

/// The number of documents to score.
pub open spec fn doc_limit_of(o: OptionsView) -> int {
    match o.ndocs {
        Some(n) => n as int,
        None => if o.dump is Some {
            3
        } else {
            100
        },
    }
}

/// The size of a sub-batch for a model.
pub open spec fn sub_batch_of(o: OptionsView, arch: Architecture) -> int {
    match o.sub_batch {
        Some(n) => n as int,
        None => match arch {
            Architecture::Nemotron => SUB_BATCH as int,
            Architecture::Kalm => SUBB_DEFAULT as int,
        },
    }
}

/// What the program is to do: the server comes before the scores of the sample,
/// these before timings, and a barrier behind every sub-batch before the overlap.
pub open spec fn task_of(o: OptionsView) -> Task {
    if o.serve {
        Task::Serve
    } else if o.dump is Some {
        Task::Dump
    } else if o.sweep {
        Task::Sweep
    } else {
        Task::Bench(
            if o.perchunk {
                Mode::PerChunk
            } else if o.overlap {
                Mode::Overlap
            } else {
                Mode::Deferred
            },
        )
    }
}

/// The sizes of a sub-batch that a sweep times, in order.
pub fn sweep_sizes() -> (r: Vec<usize>)
    ensures
        r@ == seq![100usize, 50usize, 25usize, 10usize],
{
    let r: Vec<usize> = vec![100, 50, 25, 10];
    assert(r@ =~= seq![100usize, 50usize, 25usize, 10usize]);
    r
}

impl ArgError {
    /// The text of the error. That of a value which is no number is left to the
    /// attempt to read it.
    pub fn message(&self) -> (r: Option<String>)
        ensures
            match *self {
                ArgError::NeedsValue(flag) => r matches Some(m) && m@ == flag_text(flag)
                    + " needs a value"@,
                ArgError::NotANumber(_, _) => r is None,
                ArgError::ZeroSubBatch => r matches Some(m) && m@ == "--subbatch must be >= 1"@,
            },
    {
        match self {
            ArgError::NeedsValue(flag) => {
                let mut m = match flag {
                    Flag::Dump => "--dump",
                    Flag::Ndocs => "--ndocs",
                    Flag::Subbatch => "--subbatch",
                    Flag::Port => "--port",
                }.to_owned();
                m.append(" needs a value");
                Some(m)
            },
            ArgError::NotANumber(_, _) => None,
            ArgError::ZeroSubBatch => Some("--subbatch must be >= 1".to_owned()),
        }
    }
}

/// An argument that is no option and is not taken as a value changes nothing,
/// wherever it stands.
pub proof fn law_unknown_argument_is_skipped(
    args: Seq<Seq<char>>,
    a: int,
    o: OptionsView,
)
    requires
        0 <= a < args.len(),
        flag_of(args[a]) is None,
        args[a] != "--sweep"@,
        args[a] != "--overlap"@,
        args[a] != "--perchunk"@,
        args[a] != "--serve"@,
    ensures
        options_from(args, a, o) == options_from(args.remove(a), a, o),
{
    lemma_options_from_shifted(args, a, o, a + 1);
}

proof fn lemma_options_from_shifted(args: Seq<Seq<char>>, a: int, o: OptionsView, b: int)
    requires
        0 <= a < b,
        a < args.len(),
    ensures
        options_from(args, b, o) == options_from(args.remove(a), b - 1, o),
    decreases args.len() - b,
{
    let rest = args.remove(a);
    if b < args.len() {
        assert(rest[b - 1] == args[b]);
        match flag_of(args[b]) {
            Some(flag) => {
                if b + 1 < args.len() {
                    assert(rest[b] == args[b + 1]);
                    if let Ok(next) = with_value(o, flag, args[b + 1]) {
                        lemma_options_from_shifted(args, a, next, b + 2);
                    }
                }
            },
            None => {
                lemma_options_from_shifted(args, a, with_switch(o, args[b]), b + 1);
            },
        }
    }
}

} // verus!
