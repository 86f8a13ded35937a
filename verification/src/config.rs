//! Resolving command-line tokens into a search configuration.

use vstd::prelude::*;

verus! {

/// The resolved configuration of one search run: what to look for, in which
/// file, and whether letter case must match exactly.
#[derive(Debug)]
pub struct Config {
    pub query: String,
    pub filename: String,
    pub case_sensitive: bool,
}

/// The message handed back when too few tokens are given: it embeds the
/// program name and states the expected syntax.
pub open spec fn usage_message(prog: Seq<char>) -> Seq<char> {
    "Syntax: "@ + prog + " <string to search> <filename> [--case_sensitive]"@
}

/// Some token is the literal flag that turns on case-sensitive matching.
pub open spec fn has_case_flag(args: Seq<String>) -> bool {
    exists|i: int| 0 <= i < args.len() && args[i]@ == "--case_sensitive"@
}

impl Config {
    /// Resolves an ordered sequence of tokens: the first is the program name,
    /// the second the query, the third the filename. The flag token may stand
    /// anywhere in the sequence. With fewer than three tokens the resolution
    /// fails, and the error carries the usage message.
    pub fn from(args: &[String]) -> (r: Result<Config, String>)
        requires
            args@.len() >= 1,
        ensures
            r is Ok <==> args@.len() >= 3,
            r is Ok ==> r->Ok_0.query@ == args@[1]@ && r->Ok_0.filename@ == args@[2]@ && (
            r->Ok_0.case_sensitive <==> has_case_flag(args@)),
            r is Err ==> r->Err_0@ == usage_message(args@[0]@),
    {
        if args.len() < 3 {
            let mut msg = String::from_str("Syntax: ");
            msg.append(args[0].as_str());
            msg.append(" <string to search> <filename> [--case_sensitive]");
            proof {
                assert(msg@ =~= usage_message(args@[0]@));
            }
            return Err(msg);
        }
        let query = args[1].clone();
        let filename = args[2].clone();
        let flag = String::from_str("--case_sensitive");
        let mut case_sensitive = false;
        let mut i: usize = 0;
        while i < args.len()
            invariant
                flag@ == "--case_sensitive"@,
                i <= args@.len(),
                case_sensitive <==> exists|j: int|
                    0 <= j < i && args@[j]@ == "--case_sensitive"@,
            decreases args@.len() - i,
        {
            if args[i].eq(&flag) {
                case_sensitive = true;
                assert(args@[i as int]@ == "--case_sensitive"@);
            }
            i = i + 1;
        }
        Ok(Config { query, filename, case_sensitive })
    }
}

} // verus!
