//! The log of a scheduler run: lines of text, each tagged with its level,
//! the module that wrote it, and the path of nested subloggers open then.
use vstd::prelude::*;

verus! {

/// The log of one scheduler run.
#[derive(Debug)]
pub struct SchedulerLogger {
    /// The lines written so far.
    pub buf: String,
    /// The names of the open subloggers, joined by `.`.
    pub sublogger: String,
}

/// An open sublogger: the length that the sublogger path had before it
/// was opened, in characters.
#[derive(Debug)]
pub struct Sublogger(pub usize);

/// `s` padded on the left with spaces to `width` characters.
pub open spec fn pad_left(s: Seq<char>, width: nat) -> Seq<char> {
    if s.len() >= width {
        s
    } else {
        Seq::new((width - s.len()) as nat, |i: int| ' ') + s
    }
}

/// A log line: the level right-aligned in five characters, the module, the
/// sublogger path in brackets, the message.
pub open spec fn log_line(level: Seq<char>, module: Seq<char>, sublogger: Seq<char>, message: Seq<char>) -> Seq<
    char,
> {
    pad_left(level, 5) + ": "@ + module + "["@ + sublogger + "]: "@ + message + "\n"@
}

/// The sublogger path once a sublogger `name` is opened on `path`.
pub open spec fn sub_path(path: Seq<char>, name: Seq<char>) -> Seq<char> {
    if path.len() == 0 {
        name
    } else {
        path + "."@ + name
    }
}

impl SchedulerLogger {
    /// An empty log, with no sublogger open.
    pub fn context() -> (r: SchedulerLogger)
        ensures
            r.buf@ == Seq::<char>::empty(),
            r.sublogger@ == Seq::<char>::empty(),
    {
        SchedulerLogger { buf: String::new(), sublogger: String::new() }
    }

    /// Appends a line of level `level` from module `module` (`<unknown>`
    /// when not known).
    pub fn write_line(&mut self, level: &str, module: Option<&str>, message: &str)
        ensures
            final(self).sublogger == old(self).sublogger,
            final(self).buf@ == old(self).buf@ + log_line(
                level@,
                match module {
                    Some(m) => m@,
                    None => "<unknown>"@,
                },
                old(self).sublogger@,
                message@,
            ),
    {
        let len = level.unicode_len();
        let mut line = String::new();
        let mut i = len;
        while i < 5
            invariant
                len == level@.len(),
                len <= i,
                len < 5 ==> i <= 5,
                len >= 5 ==> i == len,
                line@ == Seq::new((i - len) as nat, |j: int| ' '),
            decreases 5 - i,
        {
            line.append(" ");
            proof {
                reveal_strlit(" ");
                assert(line@ =~= Seq::new((i + 1 - len) as nat, |j: int| ' '));
            }
            i = i + 1;
        }
        line.append(level);
        proof {
            if len >= 5 {
                assert(line@ =~= level@);
            }
            assert(line@ == pad_left(level@, 5));
        }
        line.append(": ");
        match module {
            Some(m) => line.append(m),
            None => line.append("<unknown>"),
        }
        line.append("[");
        line.append(self.sublogger.as_str());
        line.append("]: ");
        line.append(message);
        line.append("\n");
        self.buf.append(line.as_str());
        proof {
            assert(self.buf@ =~= old(self).buf@ + log_line(
                level@,
                match module {
                    Some(m) => m@,
                    None => "<unknown>"@,
                },
                old(self).sublogger@,
                message@,
            ));
        }
    }

    /// Gives up the log for its text.
    pub fn into_inner(self) -> (r: String)
        ensures
            r == self.buf,
    {
        self.buf
    }
}

impl Sublogger {
    /// Opens sublogger `name`: its name is added to the sublogger path.
    pub fn context(logger: &mut SchedulerLogger, name: &str) -> (r: Sublogger)
        ensures
            r.0 == old(logger).sublogger@.len(),
            final(logger).sublogger@ == sub_path(old(logger).sublogger@, name@),
            final(logger).buf == old(logger).buf,
    {
        let sub = Sublogger(logger.sublogger.as_str().unicode_len());
        if sub.0 != 0 {
            logger.sublogger.append(".");
        }
        logger.sublogger.append(name);
        sub
    }

    /// Closes the sublogger: the path is cut back to what it was when the
    /// sublogger was opened; a path that is already no longer than that
    /// stays as it is.
    pub fn leave(self, logger: &mut SchedulerLogger)
        ensures
            final(logger).sublogger@ == if self.0 <= old(logger).sublogger@.len() {
                old(logger).sublogger@.take(self.0 as int)
            } else {
                old(logger).sublogger@
            },
            final(logger).buf == old(logger).buf,
    {
        if self.0 <= logger.sublogger.as_str().unicode_len() {
            let kept = String::from_str(logger.sublogger.as_str().substring_char(0, self.0));
            logger.sublogger = kept;
        }
    }
}

/// Closing a sublogger gives back the path it was opened on.
pub proof fn lemma_sublogger_restores(path: Seq<char>, name: Seq<char>)
    ensures
        sub_path(path, name).take(path.len() as int) == path,
{
    reveal_strlit(".");
    if path.len() == 0 {
        assert(sub_path(path, name).take(0) =~= path);
    } else {
        assert(sub_path(path, name).take(path.len() as int) =~= path);
    }
}

} // verus!
