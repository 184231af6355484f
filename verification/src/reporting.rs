//! Human and JUnit renderings of an execution report. JSON renderings are
//! produced by the caller from the same report.
use vstd::prelude::*;
use crate::execution::{ExecutionReport, TaskReport};
use crate::text::{chars_of, decimal, join2, join3, signed_decimal, signed_decimal_text, decimal_text};

verus! {

/// What character `c` becomes inside XML text or attributes: markup
/// characters become entities, control characters other than line breaks and
/// tabs are dropped.
pub open spec fn xml_piece(c: char) -> Seq<char> {
    if c == '&' {
        "&amp;"@
    } else if c == '<' {
        "&lt;"@
    } else if c == '>' {
        "&gt;"@
    } else if c == '"' {
        "&quot;"@
    } else if c == '\'' {
        "&apos;"@
    } else if (c as u32) < 32 && c != '\n' && c != '\r' && c != '\t' {
        Seq::empty()
    } else {
        seq![c]
    }
}

/// `s` made safe for XML, character by character.
pub open spec fn xml_escaped(s: Seq<char>) -> Seq<char>
    decreases s.len(),
{
    if s.len() == 0 {
        Seq::empty()
    } else {
        xml_escaped(s.drop_last()) + xml_piece(s.last())
    }
}

/// `input` made safe for XML text and attribute values.
pub fn escape(input: &str) -> (r: String)
    ensures
        r@ == xml_escaped(input@),
{
    let cs = chars_of(input);
    let mut r = String::from_str("");
    let mut i: usize = 0;
    proof {
        reveal_strlit("");
    }
    while i < cs.len()
        invariant
            cs@ == input@,
            i <= cs@.len(),
            r@ == xml_escaped(cs@.take(i as int)),
        decreases cs@.len() - i,
    {
        let c = cs[i];
        proof {
            assert(cs@.take(i + 1).drop_last() =~= cs@.take(i as int));
        }
        let before = r;
        r = if c == '&' {
            join2(before.as_str(), "&amp;")
        } else if c == '<' {
            join2(before.as_str(), "&lt;")
        } else if c == '>' {
            join2(before.as_str(), "&gt;")
        } else if c == '"' {
            join2(before.as_str(), "&quot;")
        } else if c == '\'' {
            join2(before.as_str(), "&apos;")
        } else if (c as u32) < 32 && c != '\n' && c != '\r' && c != '\t' {
            before
        } else {
            join2(before.as_str(), input.substring_char(i, i + 1))
        };
        proof {
            assert(input@.subrange(i as int, i + 1) =~= seq![c]);
        }
        i = i + 1;
    }
    proof {
        assert(cs@.take(cs@.len() as int) =~= cs@);
    }
    r
}

/// The decimal notation of a natural number.
pub fn wide_decimal_text(n: u128) -> (r: String)
    ensures
        r@ == decimal(n as nat),
    decreases n,
{
    let table = "0123456789";
    proof {
        reveal_strlit("0123456789");
    }
    if n < 10 {
        let d = n as usize;
        String::from_str(table.substring_char(d, d + 1))
    } else {
        let mut r = wide_decimal_text(n / 10);
        let d = (n % 10) as usize;
        r.append(table.substring_char(d, d + 1));
        r
    }
}

/// The terminal line of one task: identifier, status, duration and message.
pub open spec fn terminal_line(t: TaskReport) -> Seq<char> {
    t.id@ + ": "@ + t.status@ + " ("@ + decimal(t.duration_ms as nat) + " ms)"@ + match t.message {
        Some(m) => " - "@ + m@,
        None => Seq::empty(),
    }
}

/// The terminal lines of `tasks`, separated by line breaks.
pub open spec fn terminal_text(tasks: Seq<TaskReport>) -> Seq<char>
    decreases tasks.len(),
{
    if tasks.len() == 0 {
        Seq::empty()
    } else if tasks.len() == 1 {
        terminal_line(tasks[0])
    } else {
        terminal_text(tasks.drop_last()) + "\n"@ + terminal_line(tasks.last())
    }
}

fn task_line(t: &TaskReport) -> (r: String)
    ensures
        r@ == terminal_line(*t),
{
    let ms = wide_decimal_text(t.duration_ms);
    let head = join3(t.id.as_str(), ": ", t.status.as_str());
    let mid = join3(head.as_str(), " (", ms.as_str());
    let line = join2(mid.as_str(), " ms)");
    match &t.message {
        Some(m) => {
            let with = join3(line.as_str(), " - ", m.as_str());
            assert(with@ =~= terminal_line(*t));
            with
        },
        None => {
            assert(line@ =~= terminal_line(*t));
            line
        },
    }
}

/// The report for a terminal: one line per task.
pub fn terminal(report: &ExecutionReport) -> (r: String)
    ensures
        r@ == terminal_text(report.tasks@),
{
    let mut r = String::from_str("");
    proof {
        reveal_strlit("");
    }
    let mut i: usize = 0;
    while i < report.tasks.len()
        invariant
            i <= report.tasks@.len(),
            r@ == terminal_text(report.tasks@.take(i as int)),
        decreases report.tasks@.len() - i,
    {
        let line = task_line(&report.tasks[i]);
        proof {
            assert(report.tasks@.take(i + 1).drop_last() =~= report.tasks@.take(i as int));
        }
        if i == 0 {
            r = line;
        } else {
            r = join3(r.as_str(), "\n", line.as_str());
        }
        i = i + 1;
    }
    proof {
        assert(report.tasks@.take(report.tasks@.len() as int) =~= report.tasks@);
    }
    r
}

/// How many tasks did not exit with 0.
pub open spec fn failures(tasks: Seq<TaskReport>) -> nat
    decreases tasks.len(),
{
    if tasks.len() == 0 {
        0
    } else {
        failures(tasks.drop_last()) + if tasks.last().exit_code != 0 {
            1nat
        } else {
            0nat
        }
    }
}

/// The JUnit test case of one task, with its duration already written as seconds.
pub open spec fn junit_case(t: TaskReport, time: Seq<char>) -> Seq<char> {
    "  <testcase name=\""@ + xml_escaped(t.id@) + "\" time=\""@ + time + "\">"@ + (if t.status@ == "skipped"@ {
        "<skipped/>"@
    } else {
        Seq::empty()
    }) + (if t.exit_code != 0 {
        "<failure message=\"Exit code "@ + signed_decimal(t.exit_code as int) + "\">"@ + xml_escaped(
            match t.message {
                Some(m) => m@,
                None => "Task failed"@,
            },
        ) + "</failure>"@
    } else {
        Seq::empty()
    }) + "</testcase>\n"@
}

/// The JUnit test cases of `tasks` with their `times`.
pub open spec fn junit_cases(tasks: Seq<TaskReport>, times: Seq<String>) -> Seq<char>
    decreases tasks.len(),
{
    if tasks.len() == 0 {
        Seq::empty()
    } else {
        junit_cases(tasks.drop_last(), times) + junit_case(tasks.last(), times[tasks.len() - 1]@)
    }
}

/// The JUnit document of a run whose task durations are written as `times`.
pub open spec fn junit_text(tasks: Seq<TaskReport>, times: Seq<String>) -> Seq<char> {
    "<?xml version=\"1.0\" encoding=\"UTF-8\"?>\n<testsuite name=\"pctl\" tests=\""@ + decimal(tasks.len())
        + "\" failures=\""@ + decimal(failures(tasks)) + "\">\n"@ + junit_cases(tasks, times) + "</testsuite>"@
}

fn junit_task(t: &TaskReport, time: &str) -> (r: String)
    ensures
        r@ == junit_case(*t, time@),
{
    let id = escape(t.id.as_str());
    let open = join3("  <testcase name=\"", id.as_str(), "\" time=\"");
    let mut r = join3(open.as_str(), time, "\">");
    if crate::text::same(t.status.as_str(), "skipped") {
        r = join2(r.as_str(), "<skipped/>");
    }
    if t.exit_code != 0 {
        let code = signed_decimal_text(t.exit_code);
        let message = match &t.message {
            Some(m) => escape(m.as_str()),
            None => escape("Task failed"),
        };
        let head = join3("<failure message=\"Exit code ", code.as_str(), "\">");
        let failure = join3(head.as_str(), message.as_str(), "</failure>");
        r = join2(r.as_str(), failure.as_str());
    }
    r = join2(r.as_str(), "</testcase>\n");
    assert(r@ =~= junit_case(*t, time@));
    r
}

/// The report as a JUnit document; `times` holds each task's duration in seconds, as text.
pub fn junit(report: &ExecutionReport, times: &Vec<String>) -> (r: String)
    requires
        times@.len() == report.tasks@.len(),
    ensures
        r@ == junit_text(report.tasks@, times@),
{
    let n = report.tasks.len();
    let mut cases = String::from_str("");
    proof {
        reveal_strlit("");
    }
    let mut failed: usize = 0;
    let mut i: usize = 0;
    while i < n
        invariant
            n == report.tasks@.len() == times@.len(),
            i <= n,
            failed <= i,
            failed == failures(report.tasks@.take(i as int)),
            cases@ == junit_cases(report.tasks@.take(i as int), times@),
        decreases n - i,
    {
        let case = junit_task(&report.tasks[i], times[i].as_str());
        proof {
            assert(report.tasks@.take(i + 1).drop_last() =~= report.tasks@.take(i as int));
        }
        cases = join2(cases.as_str(), case.as_str());
        if report.tasks[i].exit_code != 0 {
            failed = failed + 1;
        }
        i = i + 1;
    }
    proof {
        assert(report.tasks@.take(n as int) =~= report.tasks@);
    }
    let tests = decimal_text(n);
    let count = decimal_text(failed);
    let head = join3("<?xml version=\"1.0\" encoding=\"UTF-8\"?>\n<testsuite name=\"pctl\" tests=\"", tests.as_str(), "\" failures=\"");
    let head = join3(head.as_str(), count.as_str(), "\">\n");
    let r = join3(head.as_str(), cases.as_str(), "</testsuite>");
    assert(r@ =~= junit_text(report.tasks@, times@));
    r
}

} // verus!
