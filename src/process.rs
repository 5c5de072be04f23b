use vstd::prelude::*;

use crate::breakpoints::{parse_unsigned, parse_unsigned_from};

verus! {

#[derive(Debug, Clone, PartialEq)]
pub struct Process {
    pub pid: usize,
    pub ppid: usize,
    pub command: String,
}

impl Process {
    pub fn new(pid: usize, ppid: usize, command: String) -> (r: Process)
        ensures
            r.pid == pid,
            r.ppid == ppid,
            r.command == command,
    {
        Process { pid, ppid, command }
    }
}

/// The descriptor numbers named by the entries of a `/proc/<pid>/fd` directory, in the same
/// order; `None` if any entry is not a decimal number.
pub fn fds_from_names(names: &Vec<String>) -> (r: Option<Vec<usize>>)
    ensures
        match r {
            Some(fds) => fds@.len() == names@.len() && forall|i: int|
                0 <= i < names@.len() ==> parse_unsigned(#[trigger] names@[i]@, 10) == Some(
                    fds@[i],
                ),
            None => exists|i: int|
                0 <= i < names@.len() && parse_unsigned(#[trigger] names@[i]@, 10) is None,
        },
{
    let mut fds: Vec<usize> = Vec::new();
    let mut i: usize = 0;
    while i < names.len()
        invariant
            i <= names@.len(),
            fds@.len() == i,
            forall|k: int| 0 <= k < i ==> parse_unsigned(#[trigger] names@[k]@, 10) == Some(fds@[k]),
        decreases names@.len() - i,
    {
        let name = names[i].as_str();
        assert(name@.subrange(0, name@.len() as int) =~= name@);
        match parse_unsigned_from(name, 0, 10) {
            Some(fd) => fds.push(fd),
            None => {
                assert(parse_unsigned(names@[i as int]@, 10) is None);
                return None;
            },
        }
        i = i + 1;
    }
    Some(fds)
}

} // verus!
