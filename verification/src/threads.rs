use vstd::prelude::*;

verus! {

/// How many worker threads a scan uses, or `None` for a scan on one thread.
///
/// `requested` is what was asked for: nothing (one thread), a count, or a
/// parallel scan with no count. With no count the choice follows the disk
/// holding the root: on a solid-state disk one thread per processor, at most
/// eight; on a spinning disk one thread (seeks would dominate); where the kind
/// of disk is unknown, four.
pub fn thread_count(requested: Option<Option<usize>>, solid_state: Option<bool>, cpus: usize) -> (r: Option<usize>)
    ensures
        r == match requested {
            None => None,
            Some(Some(n)) => Some(n),
            Some(None) => match solid_state {
                Some(true) => Some(if cpus < 8 { cpus } else { 8 }),
                Some(false) => None,
                None => Some(4usize),
            },
        },
{
    match requested {
        None => None,
        Some(Some(n)) => Some(n),
        Some(None) => match solid_state {
            Some(true) => {
                if cpus < 8 {
                    Some(cpus)
                } else {
                    Some(8)
                }
            },
            Some(false) => None,
            None => Some(4),
        },
    }
}

} // verus!
