//! Echoing arguments: what is written for a list of arguments.

use crate::text::line_views;
use vstd::prelude::*;

verus! {

/// The arguments in order, with one space between each two.
pub open spec fn joined(args: Seq<Seq<char>>) -> Seq<char>
    decreases args.len(),
{
    if args.len() == 0 {
        Seq::empty()
    } else if args.len() == 1 {
        args[0]
    } else {
        joined(args.drop_last()) + seq![' '] + args.last()
    }
}

/// What is written for `args`: the arguments joined by spaces, and a line
/// feed.
pub open spec fn echo_output(args: Seq<Seq<char>>) -> Seq<char> {
    joined(args) + seq!['\n']
}

/// Writes the line for `args`.
pub fn echo_line(args: &Vec<String>) -> (out: String)
    ensures
        out@ == echo_output(line_views(args@)),
{
    let ghost all = line_views(args@);
    let mut out = String::new();
    let mut i: usize = 0;
    proof {
        reveal_strlit("\n");
        assert(all.take(0) =~= Seq::<Seq<char>>::empty());
    }
    while i < args.len()
        invariant
            i <= args.len(),
            all == line_views(args@),
            out@ == joined(all.take(i as int)),
        decreases args.len() - i,
    {
        let ghost before = out@;
        if i > 0 {
            proof {
                reveal_strlit(" ");
            }
            out.append(" ");
        }
        out.append(args[i].as_str());
        proof {
            let next = all.take(i + 1);
            assert(next.drop_last() =~= all.take(i as int));
            assert(next.last() == args@[i as int]@);
            if i == 0 {
                assert(next[0] == args@[0]@);
                assert(before =~= Seq::<char>::empty());
                assert(out@ =~= joined(next));
            } else {
                assert(out@ =~= before + seq![' '] + args@[i as int]@);
                assert(out@ =~= joined(next));
            }
        }
        i = i + 1;
    }
    assert(all.take(args.len() as int) =~= all);
    out.append("\n");
    out
}

} // verus!
