//! The decisions behind the command-execution tool: only PowerShell
//! invocations are accepted, and the argument list is joined into the one
//! command string that is handed to the shell.  Spawning the process and
//! capturing its output stay with the caller.

use vstd::prelude::*;

use crate::text::{seq_contains_ci, str_contains_ci, str_eq};

verus! {

/// The command names PowerShell: it mentions `powershell.exe` in any
/// ASCII case, or is exactly `powershell`.
pub open spec fn spec_is_powershell(command: Seq<char>) -> bool {
    seq_contains_ci(command, "powershell.exe"@) || command == "powershell"@
}

/// Whether a requested command is a PowerShell invocation; everything
/// else is refused.
pub fn is_powershell_command(command: &str) -> (r: bool)
    ensures
        r == spec_is_powershell(command@),
{
    str_contains_ci(command, "powershell.exe") || str_eq(command, "powershell")
}

/// The arguments joined with single spaces; empty when there are none.
pub open spec fn spec_join_args(args: Seq<Seq<char>>) -> Seq<char>
    decreases args.len(),
{
    if args.len() == 0 {
        Seq::empty()
    } else if args.len() == 1 {
        args[0]
    } else {
        args[0] + seq![' '] + spec_join_args(args.skip(1))
    }
}

proof fn lemma_join_args_snoc(args: Seq<Seq<char>>, x: Seq<char>)
    requires
        args.len() >= 1,
    ensures
        spec_join_args(args.push(x)) == spec_join_args(args) + seq![' '] + x,
    decreases args.len(),
{
    if args.len() == 1 {
        assert(args.push(x)[0] == args[0]);
        assert(args.push(x).skip(1) =~= seq![x]);
        assert(spec_join_args(seq![x]) == x);
    } else {
        assert(args.push(x)[0] == args[0]);
        assert(args.push(x).skip(1) =~= args.skip(1).push(x));
        lemma_join_args_snoc(args.skip(1), x);
    }
}

/// Join the argument list into one space-separated command string.
pub fn join_args(args: &Vec<String>) -> (r: String)
    ensures
        r@ == spec_join_args(args.deep_view()),
{
    let n = args.len();
    let mut out = String::new();
    if n == 0 {
        return out;
    }
    out.append(args[0].as_str());
    proof {
        assert(Seq::<char>::empty() + args.deep_view()[0] =~= args.deep_view()[0]);
        assert(args.deep_view().take(1) =~= seq![args.deep_view()[0]]);
        assert(spec_join_args(seq![args.deep_view()[0]]) == args.deep_view()[0]);
    }
    let mut i: usize = 1;
    while i < n
        invariant
            1 <= i <= n,
            n == args@.len(),
            out@ == spec_join_args(args.deep_view().take(i as int)),
        decreases n - i,
    {
        out.append(" ");
        out.append(args[i].as_str());
        proof {
            reveal_strlit(" ");
            let dv = args.deep_view();
            assert(dv.take(i as int).len() >= 1);
            lemma_join_args_snoc(dv.take(i as int), dv[i as int]);
            assert(dv.take(i as int).push(dv[i as int]) =~= dv.take(i as int + 1));
            assert(" "@ =~= seq![' ']);
        }
        i = i + 1;
    }
    proof {
        assert(args.deep_view().take(n as int) =~= args.deep_view());
    }
    out
}

} // verus!
