//! The small decisions around a run: taking arguments off the command line and
//! recognising a source file by its name.
use vstd::prelude::*;

verus! {

/// Takes the last argument off `args`; `None` when there is none left.
pub fn read_arg(args: &mut Vec<String>) -> (r: Option<String>)
    ensures
        old(args)@.len() == 0 ==> r is None && final(args)@ == old(args)@,
        old(args)@.len() > 0 ==> r == Some(old(args)@.last()) && final(args)@
            == old(args)@.drop_last(),
{
    args.pop()
}

/// The bytes of the extension that source files carry: `.bf`.
pub open spec fn source_extension() -> Seq<u8> {
    seq![46u8, 98u8, 102u8]
}

/// Whether the path `path` names a source file, that is ends in `.bf`.
pub fn has_source_extension(path: &[u8]) -> (r: bool)
    ensures
        r == (path@.len() >= 3 && path@.subrange(path@.len() - 3, path@.len() as int)
            == source_extension()),
{
    let n = path.len();
    if n < 3 {
        return false;
    }
    let r = path[n - 3] == 46u8 && path[n - 2] == 98u8 && path[n - 1] == 102u8;
    assert(r == (path@.subrange(n - 3, n as int) =~= source_extension()));
    r
}

} // verus!
