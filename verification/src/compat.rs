//! Flags of GNU locate that are accepted but not supported.
use vstd::prelude::*;
use crate::cli::SearchCli;

verus! {

/// The GNU flags given on a command line that this locator does not support, in a fixed
/// order: `-L/--follow` (only outside GNU mode), `-A/--all`, `-w/--wholename`,
/// `-P/--nofollow`, `-H`, `--max-database-age`, `--regextype`, `--require-visibility`.
pub open spec fn unsupported_flags_spec(cli: SearchCli) -> Seq<Seq<char>> {
    (if cli.follow && !cli.gnu { seq!["-L/--follow"@] } else { Seq::empty() })
        + (if cli.all { seq!["-A/--all"@] } else { Seq::empty() })
        + (if cli.wholename { seq!["-w/--wholename"@] } else { Seq::empty() })
        + (if cli.nofollow { seq!["-P/--nofollow"@] } else { Seq::empty() })
        + (if cli.h_flag { seq!["-H"@] } else { Seq::empty() })
        + (if cli.max_database_age is Some { seq!["--max-database-age"@] } else { Seq::empty() })
        + (if cli.regextype is Some { seq!["--regextype"@] } else { Seq::empty() })
        + (if cli.require_visibility { seq!["--require-visibility"@] } else { Seq::empty() })
}

fn push_if(v: &mut Vec<String>, cond: bool, flag: &str)
    ensures
        crate::index::trigram::string_views(final(v)@) == crate::index::trigram::string_views(old(v)@) + (if cond {
            seq![flag@]
        } else {
            Seq::empty()
        }),
{
    if cond {
        let s = crate::text::string_from_chars(crate::text::str_chars(flag).as_slice());
        let ghost before = v@;
        v.push(s);
        proof {
            assert(crate::index::trigram::string_views(v@) =~= crate::index::trigram::string_views(before).push(s@));
        }
    } else {
        proof {
            assert(crate::index::trigram::string_views(old(v)@) + Seq::<Seq<char>>::empty() =~= crate::index::trigram::string_views(old(v)@));
        }
    }
}

/// The unsupported GNU flags present on the command line (see `unsupported_flags_spec`).
/// Under `--gnu` each is warned about; otherwise the first ends the program.
pub fn unsupported_flags(cli: &SearchCli) -> (r: Vec<String>)
    ensures
        crate::index::trigram::string_views(r@) == unsupported_flags_spec(*cli),
{
    let mut v: Vec<String> = Vec::new();
    proof {
        assert(crate::index::trigram::string_views(v@) =~= Seq::<Seq<char>>::empty());
    }
    push_if(&mut v, cli.follow && !cli.gnu, "-L/--follow");
    push_if(&mut v, cli.all, "-A/--all");
    push_if(&mut v, cli.wholename, "-w/--wholename");
    push_if(&mut v, cli.nofollow, "-P/--nofollow");
    push_if(&mut v, cli.h_flag, "-H");
    push_if(&mut v, cli.max_database_age.is_some(), "--max-database-age");
    push_if(&mut v, cli.regextype.is_some(), "--regextype");
    push_if(&mut v, cli.require_visibility, "--require-visibility");
    proof {
        assert(crate::index::trigram::string_views(v@) =~= unsupported_flags_spec(*cli));
    }
    v
}

} // verus!
