//! Shell commands: which one a line names.
use vstd::prelude::*;

verus! {

#[derive(Debug, Clone, PartialEq, Eq)]
pub enum Command {
    Help,
    Clear,
    /// Heap and collections demonstration (`mem` or `alloc`).
    Mem,
    /// Interrupt controller status (`apic` or `status`).
    Apic,
    /// Anything else is echoed back.
    Echo(Vec<u8>),
}

/// `s` without its leading and trailing spaces.
pub open spec fn trimmed(s: Seq<u8>) -> Seq<u8>
    decreases s.len(),
{
    if s.len() > 0 && s[0] == 0x20 {
        trimmed(s.drop_first())
    } else if s.len() > 0 && s.last() == 0x20 {
        trimmed(s.drop_last())
    } else {
        s
    }
}

/// The bytes of `line` between `start` and `end`.
fn slice_bytes(line: &[u8], start: usize, end: usize) -> (r: Vec<u8>)
    requires
        start <= end <= line@.len(),
    ensures
        r@ == line@.subrange(start as int, end as int),
{
    let mut out: Vec<u8> = Vec::new();
    let mut i = start;
    while i < end
        invariant
            start <= i <= end,
            end <= line@.len(),
            out@ == line@.subrange(start as int, i as int),
        decreases end - i,
    {
        out.push(line[i]);
        proof {
            assert(out@ =~= line@.subrange(start as int, i + 1));
        }
        i = i + 1;
    }
    out
}

/// `line` with leading and trailing spaces removed.
pub fn trim(line: &[u8]) -> (r: Vec<u8>)
    ensures
        r@ == trimmed(line@),
{
    let mut start: usize = 0;
    let mut end: usize = line.len();
    proof {
        assert(line@.subrange(0, line@.len() as int) =~= line@);
    }
    while start < end && line[start] == 0x20
        invariant
            start <= end <= line@.len(),
            trimmed(line@.subrange(start as int, end as int)) == trimmed(line@),
        decreases end - start,
    {
        proof {
            let s = line@.subrange(start as int, end as int);
            assert(s.drop_first() =~= line@.subrange(start + 1, end as int));
        }
        start = start + 1;
    }
    while start < end && line[end - 1] == 0x20
        invariant
            start <= end <= line@.len(),
            trimmed(line@.subrange(start as int, end as int)) == trimmed(line@),
            start < end ==> line@[start as int] != 0x20,
        decreases end - start,
    {
        proof {
            let s = line@.subrange(start as int, end as int);
            assert(s.drop_last() =~= line@.subrange(start as int, end - 1));
        }
        end = end - 1;
    }
    proof {
        let s = line@.subrange(start as int, end as int);
        assert(!(s.len() > 0 && s[0] == 0x20));
        assert(!(s.len() > 0 && s.last() == 0x20));
    }
    slice_bytes(line, start, end)
}

fn equals_word(t: &[u8], word: &[u8]) -> (r: bool)
    ensures
        r == (t@ == word@),
{
    if t.len() != word.len() {
        return false;
    }
    let mut i: usize = 0;
    while i < t.len()
        invariant
            t@.len() == word@.len(),
            0 <= i <= t@.len(),
            forall|j: int| 0 <= j < i ==> t@[j] == word@[j],
        decreases t@.len() - i,
    {
        if t[i] != word[i] {
            return false;
        }
        i = i + 1;
    }
    proof {
        assert(t@ =~= word@);
    }
    true
}

/// The command that `line` names: the whole of it, spaces counted (the
/// shell hands it a line with the spaces around it trimmed).
pub fn execute(line: &[u8]) -> (r: Command)
    ensures
        ({
            let t = line@;
            &&& t == seq![0x68u8, 0x65, 0x6c, 0x70] ==> r == Command::Help
            &&& t == seq![0x63u8, 0x6c, 0x65, 0x61, 0x72] ==> r == Command::Clear
            &&& (t == seq![0x6du8, 0x65, 0x6d] || t == seq![0x61u8, 0x6c, 0x6c, 0x6f, 0x63]) ==> r == Command::Mem
            &&& (t == seq![0x61u8, 0x70, 0x69, 0x63] || t == seq![0x73u8, 0x74, 0x61, 0x74, 0x75, 0x73]) ==> r
                == Command::Apic
            &&& !(t == seq![0x68u8, 0x65, 0x6c, 0x70] || t == seq![0x63u8, 0x6c, 0x65, 0x61, 0x72] || t == seq![
                0x6du8,
                0x65,
                0x6d,
            ] || t == seq![0x61u8, 0x6c, 0x6c, 0x6f, 0x63] || t == seq![0x61u8, 0x70, 0x69, 0x63] || t == seq![
                0x73u8,
                0x74,
                0x61,
                0x74,
                0x75,
                0x73,
            ]) ==> (r matches Command::Echo(e) && e@ == t)
        }),
{
    let t = slice_bytes(line, 0, line.len());
    proof {
        assert(line@.subrange(0, line@.len() as int) =~= line@);
    }
    let help: [u8; 4] = [0x68, 0x65, 0x6c, 0x70];
    let clear: [u8; 5] = [0x63, 0x6c, 0x65, 0x61, 0x72];
    let mem: [u8; 3] = [0x6d, 0x65, 0x6d];
    let alloc_word: [u8; 5] = [0x61, 0x6c, 0x6c, 0x6f, 0x63];
    let apic: [u8; 4] = [0x61, 0x70, 0x69, 0x63];
    let status: [u8; 6] = [0x73, 0x74, 0x61, 0x74, 0x75, 0x73];
    proof {
        assert(help@ =~= seq![0x68u8, 0x65, 0x6c, 0x70]);
        assert(clear@ =~= seq![0x63u8, 0x6c, 0x65, 0x61, 0x72]);
        assert(mem@ =~= seq![0x6du8, 0x65, 0x6d]);
        assert(alloc_word@ =~= seq![0x61u8, 0x6c, 0x6c, 0x6f, 0x63]);
        assert(apic@ =~= seq![0x61u8, 0x70, 0x69, 0x63]);
        assert(status@ =~= seq![0x73u8, 0x74, 0x61, 0x74, 0x75, 0x73]);
    }
    if equals_word(t.as_slice(), &help) {
        Command::Help
    } else if equals_word(t.as_slice(), &clear) {
        Command::Clear
    } else if equals_word(t.as_slice(), &mem) || equals_word(t.as_slice(), &alloc_word) {
        Command::Mem
    } else if equals_word(t.as_slice(), &apic) || equals_word(t.as_slice(), &status) {
        Command::Apic
    } else {
        Command::Echo(t)
    }
}

/// The lines of the `help` command.
pub fn help_lines() -> (r: Vec<&'static str>)
    ensures
        r@.len() == 6,
        r@[0]@ == "Available Commands:"@,
        r@[1]@ == "  help    - Show this help message"@,
        r@[2]@ == "  clear   - Clear the console screen"@,
        r@[3]@ == "  apic    - Display APIC & interrupt controller status"@,
        r@[4]@ == "  mem     - Test Kernel Heap & in-tree trait-driven Collections"@,
        r@[5]@ == "  <text>  - Echoes your input back to the screen"@,
{
    vec![
        "Available Commands:",
        "  help    - Show this help message",
        "  clear   - Clear the console screen",
        "  apic    - Display APIC & interrupt controller status",
        "  mem     - Test Kernel Heap & in-tree trait-driven Collections",
        "  <text>  - Echoes your input back to the screen",
    ]
}

} // verus!
