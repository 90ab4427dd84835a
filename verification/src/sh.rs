use vstd::prelude::*;

verus! {

/// Size of the shell's line buffer; a line holds at most `MAX_CMD - 1`
/// characters.
pub const MAX_CMD: usize = 64;

/// A printable ASCII character: space to `~`.
pub open spec fn printable(c: u8) -> bool {
    32 <= c <= 126
}

/// What the line editor keeps: at most `MAX_CMD - 1` printable characters.
pub open spec fn line_ok(line: Seq<u8>) -> bool {
    &&& line.len() < MAX_CMD
    &&& forall|i: int| 0 <= i < line.len() ==> printable(#[trigger] line[i])
}

/// What the line editor does with one key.
pub struct KeyOutcome {
    /// The line is complete (Enter or carriage return).
    pub done: bool,
    /// What to echo to the console.
    pub echo: Vec<u8>,
}

/// The line after key `c`: Enter ends it unchanged, backspace or delete
/// drops the last character, a printable character is added while there is
/// room, and any other key is ignored.
pub open spec fn line_after(line: Seq<u8>, c: u8) -> Seq<u8> {
    if c == 13 || c == 10 {
        line
    } else if c == 8 || c == 127 {
        if line.len() > 0 { line.drop_last() } else { line }
    } else if printable(c) && line.len() < MAX_CMD - 1 {
        line.push(c)
    } else {
        line
    }
}

/// What key `c` echoes: a newline for Enter, "back, space, back" when a
/// character is erased, the character itself when it is added, else
/// nothing.
pub open spec fn echo_of(line: Seq<u8>, c: u8) -> Seq<u8> {
    if c == 13 || c == 10 {
        seq![10u8]
    } else if c == 8 || c == 127 {
        if line.len() > 0 { seq![8u8, 32u8, 8u8] } else { Seq::empty() }
    } else if printable(c) && line.len() < MAX_CMD - 1 {
        seq![c]
    } else {
        Seq::empty()
    }
}

/// Takes key `c` into the line being read.
pub fn readline_key(line: &mut Vec<u8>, c: u8) -> (r: KeyOutcome)
    requires
        old(line)@.len() < MAX_CMD,
    ensures
        r.done == (c == 13 || c == 10),
        final(line)@ == line_after(old(line)@, c),
        r.echo@ == echo_of(old(line)@, c),
        final(line)@.len() < MAX_CMD,
{
    let mut echo: Vec<u8> = Vec::new();
    if c == 13 || c == 10 {
        echo.push(10);
        assert(echo@ =~= seq![10u8]);
        return KeyOutcome { done: true, echo };
    }
    if c == 8 || c == 127 {
        if line.len() > 0 {
            line.pop();
            echo.push(8);
            echo.push(32);
            echo.push(8);
            assert(echo@ =~= seq![8u8, 32u8, 8u8]);
        }
        return KeyOutcome { done: false, echo };
    }
    if 32 <= c && c <= 126 && line.len() < MAX_CMD - 1 {
        line.push(c);
        echo.push(c);
        assert(echo@ =~= seq![c]);
    }
    KeyOutcome { done: false, echo }
}

/// Every key keeps the line made of at most `MAX_CMD - 1` printable
/// characters.
pub proof fn lemma_line_stays_ok(line: Seq<u8>, c: u8)
    requires
        line_ok(line),
    ensures
        line_ok(line_after(line, c)),
{
    if (c == 8 || c == 127) && line.len() > 0 {
        assert forall|i: int| 0 <= i < line.drop_last().len() implies printable(#[trigger] line.drop_last()[i]) by {
            assert(line.drop_last()[i] == line[i]);
        }
    }
    if !(c == 13 || c == 10) && !(c == 8 || c == 127) && printable(c) && line.len() < MAX_CMD - 1 {
        assert forall|i: int| 0 <= i < line.push(c).len() implies printable(#[trigger] line.push(c)[i]) by {
            if i < line.len() {
                assert(line.push(c)[i] == line[i]);
            }
        }
    }
}

/// A printable character followed by a backspace leaves the line as it was.
pub proof fn lemma_type_then_erase(line: Seq<u8>, c: u8)
    requires
        printable(c),
        line.len() < MAX_CMD - 1,
    ensures
        line_after(line_after(line, c), 8) == line,
{
    assert(line.push(c).drop_last() =~= line);
}

/// `s` with every leading "./" taken off.
pub open spec fn strip_dot_slash(s: Seq<u8>) -> Seq<u8>
    decreases s.len(),
{
    if s.len() >= 2 && s[0] == 0x2Eu8 && s[1] == 0x2Fu8 {
        strip_dot_slash(s.skip(2))
    } else {
        s
    }
}

/// A leading "./" does not change the command: `./help` runs what `help`
/// runs.
pub proof fn lemma_dot_slash_prefix(s: Seq<u8>)
    ensures
        strip_dot_slash(seq![0x2Eu8, 0x2Fu8] + s) == strip_dot_slash(s),
{
    let t = seq![0x2Eu8, 0x2Fu8] + s;
    assert(t.skip(2) =~= s);
}

/// The command a line names: the line without its leading "./"s, so that
/// `help` and `./help` run the same program.
pub fn command_of(line: &[u8]) -> (r: Vec<u8>)
    ensures
        r@ == strip_dot_slash(line@),
{
    let mut start: usize = 0;
    assert(line@.skip(0) =~= line@);
    while line.len() - start >= 2 && line[start] == 0x2E && line[start + 1] == 0x2F
        invariant
            start <= line@.len(),
            strip_dot_slash(line@.skip(start as int)) == strip_dot_slash(line@),
        decreases line@.len() - start,
    {
        proof {
            let s = line@.skip(start as int);
            assert(s[0] == line@[start as int] && s[1] == line@[start + 1]);
            assert(s.skip(2) =~= line@.skip(start + 2));
        }
        start = start + 2;
    }
    let mut r: Vec<u8> = Vec::new();
    let mut i: usize = start;
    while i < line.len()
        invariant
            start <= i <= line@.len(),
            r@ == line@.subrange(start as int, i as int),
        decreases line@.len() - i,
    {
        r.push(line[i]);
        i = i + 1;
        proof {
            assert(r@ =~= line@.subrange(start as int, i as int));
        }
    }
    proof {
        let s = line@.skip(start as int);
        assert(r@ =~= s);
        if s.len() >= 2 {
            assert(s[0] == line@[start as int] && s[1] == line@[start + 1]);
        }
    }
    r
}

/// What the shell does after `fork` returned `pid`.
#[derive(Copy, Clone, Debug, PartialEq, Eq, Structural)]
pub enum AfterFork {
    /// The fork failed: report it and read the next line.
    Failed,
    /// In the child: run the command.
    Child,
    /// In the parent: wait for the child.
    Parent,
}

/// Which side of the fork the shell is on: a negative `pid` means the fork
/// failed, 0 the child, any other value the parent.
pub fn after_fork(pid: i64) -> (r: AfterFork)
    ensures
        r == if pid < 0 { AfterFork::Failed } else if pid == 0 { AfterFork::Child } else { AfterFork::Parent },
{
    if pid < 0 {
        AfterFork::Failed
    } else if pid == 0 {
        AfterFork::Child
    } else {
        AfterFork::Parent
    }
}

/// The report of a failed `exec` of `cmd`: "sh: exec failed: ", a
/// newline, `cmd` and a newline.
pub open spec fn exec_failed_text(cmd: Seq<u8>) -> Seq<u8> {
    seq![0x73u8, 0x68, 0x3A, 0x20, 0x65, 0x78, 0x65, 0x63, 0x20, 0x66, 0x61, 0x69, 0x6C, 0x65, 0x64, 0x3A, 0x20, 0x0A]
        + cmd + seq![0x0Au8]
}

/// What the child prints once `exec(cmd)` returned `ret`: nothing if it
/// did not fail (a negative value), else the report; the child then exits.
pub fn exec_report(ret: i64, cmd: &[u8]) -> (r: Option<Vec<u8>>)
    ensures
        ret >= 0 ==> r is None,
        ret < 0 ==> (r matches Some(t) && t@ == exec_failed_text(cmd@)),
{
    if ret >= 0 {
        return None;
    }
    let mut t: Vec<u8> = Vec::new();
    // "sh: exec failed: \n"
    t.push(0x73); t.push(0x68); t.push(0x3A); t.push(0x20);
    t.push(0x65); t.push(0x78); t.push(0x65); t.push(0x63); t.push(0x20);
    t.push(0x66); t.push(0x61); t.push(0x69); t.push(0x6C); t.push(0x65); t.push(0x64); t.push(0x3A); t.push(0x20);
    t.push(0x0A);
    let ghost head = t@;
    let mut i: usize = 0;
    while i < cmd.len()
        invariant
            i <= cmd@.len(),
            t@ == head + cmd@.subrange(0, i as int),
        decreases cmd@.len() - i,
    {
        t.push(cmd[i]);
        i = i + 1;
        proof {
            assert(t@ =~= head + cmd@.subrange(0, i as int));
        }
    }
    t.push(0x0A);
    proof {
        assert(cmd@.subrange(0, cmd@.len() as int) =~= cmd@);
        assert(t@ =~= exec_failed_text(cmd@));
    }
    Some(t)
}

} // verus!
