//! Lines of the program's own diagnostics.
use crate::terminal::ERASE_CURRENT_LINE;
use crate::text;
use vstd::prelude::*;

verus! {

/// Severity of a diagnostic.
#[derive(Clone, Copy, Debug, PartialEq, Eq, Structural)]
pub enum DiagnosticLevel {
    Error,
    Warn,
    Info,
    Debug,
    Trace,
}

impl DiagnosticLevel {
    pub open spec fn name(self) -> Seq<char> {
        match self {
            DiagnosticLevel::Error => "ERROR"@,
            DiagnosticLevel::Warn => "WARN"@,
            DiagnosticLevel::Info => "INFO"@,
            DiagnosticLevel::Debug => "DEBUG"@,
            DiagnosticLevel::Trace => "TRACE"@,
        }
    }

    pub fn as_str(self) -> (name: &'static str)
        ensures
            name@ == self.name(),
    {
        match self {
            DiagnosticLevel::Error => "ERROR",
            DiagnosticLevel::Warn => "WARN",
            DiagnosticLevel::Info => "INFO",
            DiagnosticLevel::Debug => "DEBUG",
            DiagnosticLevel::Trace => "TRACE",
        }
    }
}

/// A diagnostic line. On a terminal it takes the place of the current line and
/// brings the cursor back to the first column.
pub open spec fn diagnostic_text(level: DiagnosticLevel, message: Seq<char>, interactive: bool) -> Seq<
    char,
> {
    (if interactive {
        ERASE_CURRENT_LINE@
    } else {
        seq![]
    }) + "[brtt "@ + level.name() + "] "@ + message + (if interactive {
        "\r\n"@
    } else {
        "\n"@
    })
}

/// Writes a diagnostic line.
pub fn write_diagnostic_line(
    output: &mut Vec<u8>,
    level: DiagnosticLevel,
    message: &str,
    interactive: bool,
)
    ensures
        final(output)@ == old(output)@ + text::utf8(diagnostic_text(level, message@, interactive)),
{
    let mut line = String::new();
    if interactive {
        text::push_str(&mut line, ERASE_CURRENT_LINE);
    }
    text::push_str(&mut line, "[brtt ");
    text::push_str(&mut line, level.as_str());
    text::push_str(&mut line, "] ");
    text::push_str(&mut line, message);
    if interactive {
        text::push_str(&mut line, "\r\n");
    } else {
        text::push_str(&mut line, "\n");
    }
    proof {
        assert(line@ =~= diagnostic_text(level, message@, interactive));
    }
    text::push_text(output, line.as_str());
}

/// A diagnostic names its level and its message on a line of its own; on a
/// terminal it empties the row first and returns to the first column.
pub proof fn diagnostics_stand_on_their_line(level: DiagnosticLevel, message: Seq<char>)
    ensures
        ({
            let name = match level {
                DiagnosticLevel::Error => "ERROR"@,
                DiagnosticLevel::Warn => "WARN"@,
                DiagnosticLevel::Info => "INFO"@,
                DiagnosticLevel::Debug => "DEBUG"@,
                DiagnosticLevel::Trace => "TRACE"@,
            };
            let body = "[brtt "@ + name + "] "@ + message;
            &&& diagnostic_text(level, message, false) == body + seq!['\n']
            &&& diagnostic_text(level, message, true) == seq!['\r', '\u{1b}', '[', '2', 'K'] + body
                + seq!['\r', '\n']
        }),
{
    reveal_strlit("\r\x1b[2K");
    reveal_strlit("\r\n");
    reveal_strlit("\n");
    assert(ERASE_CURRENT_LINE@ =~= seq!['\r', '\u{1b}', '[', '2', 'K']);
    assert("\r\n"@ =~= seq!['\r', '\n']);
    assert("\n"@ =~= seq!['\n']);
    let name = level.name();
    let body = "[brtt "@ + name + "] "@ + message;
    assert(diagnostic_text(level, message, false) =~= body + seq!['\n']);
    assert(diagnostic_text(level, message, true) =~= ERASE_CURRENT_LINE@ + body + "\r\n"@);
}

} // verus!
