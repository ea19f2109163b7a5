use brtt::diagnostics::{write_diagnostic_line, DiagnosticLevel};

#[test]
fn interactive_diagnostics_clear_the_current_line() {
    let mut output = Vec::new();

    write_diagnostic_line(
        &mut output,
        DiagnosticLevel::Info,
        "down channel temporarily unavailable",
        true,
    );

    assert_eq!(
        output,
        b"\r\x1b[2K[brtt INFO] down channel temporarily unavailable\r\n"
    );
}

#[test]
fn redirected_diagnostics_are_plain_lines() {
    let mut output = Vec::new();
    write_diagnostic_line(&mut output, DiagnosticLevel::Warn, "careful", false);
    write_diagnostic_line(&mut output, DiagnosticLevel::Error, "broken", false);
    write_diagnostic_line(&mut output, DiagnosticLevel::Debug, "d", false);
    write_diagnostic_line(&mut output, DiagnosticLevel::Trace, "t", false);
    assert_eq!(
        output,
        b"[brtt WARN] careful\n[brtt ERROR] broken\n[brtt DEBUG] d\n[brtt TRACE] t\n"
    );
}
