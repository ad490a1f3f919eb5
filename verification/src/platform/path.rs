//! Default paths per operating system.
use vstd::prelude::*;
use crate::index::trigram::string_views;
use crate::text::{append_str, string_from_chars, str_chars};

verus! {

/// The operating systems with their own defaults.
#[derive(Clone, Copy, PartialEq, Eq, Structural, Debug)]
pub enum HostOs {
    MacOs,
    Linux,
    Other,
}

/// The default database directory under the home directory (`/tmp` when there is none).
pub fn default_db_dir(os: HostOs, home: Option<&str>) -> (r: String)
    ensures
        r@ == match home {
            Some(h) => h@,
            None => "/tmp"@,
        } + match os {
            HostOs::MacOs => "/Library/Caches/mlocate"@,
            _ => "/.cache/mlocate"@,
        },
{
    let mut v = match home {
        Some(h) => str_chars(h),
        None => str_chars("/tmp"),
    };
    match os {
        HostOs::MacOs => append_str(&mut v, "/Library/Caches/mlocate"),
        _ => append_str(&mut v, "/.cache/mlocate"),
    }
    string_from_chars(v.as_slice())
}

fn strings_of(items: &[&str]) -> (r: Vec<String>)
    ensures
        string_views(r@) == items@.map_values(|s: &str| s@),
{
    let mut r: Vec<String> = Vec::new();
    let mut i: usize = 0;
    while i < items.len()
        invariant
            0 <= i <= items@.len(),
            string_views(r@) == items@.map_values(|s: &str| s@).take(i as int),
        decreases items@.len() - i,
    {
        let s = string_from_chars(str_chars(items[i]).as_slice());
        let ghost before = r@;
        r.push(s);
        proof {
            assert(string_views(r@) =~= string_views(before).push(s@));
            assert(items@.map_values(|s: &str| s@).take(i + 1) =~= items@.map_values(|s: &str| s@).take(i as int).push(items@[i as int]@));
        }
        i = i + 1;
    }
    proof {
        assert(items@.map_values(|s: &str| s@).take(items@.len() as int) =~= items@.map_values(|s: &str| s@));
    }
    r
}

/// The roots indexed by default.
pub open spec fn localpaths_spec(os: HostOs) -> Seq<Seq<char>> {
    match os {
        HostOs::MacOs => seq!["/Users"@],
        HostOs::Linux => seq!["/home"@, "/etc"@, "/usr"@, "/opt"@],
        HostOs::Other => seq!["/"@],
    }
}

/// The paths left out by default.
pub open spec fn prunepaths_spec(os: HostOs) -> Seq<Seq<char>> {
    match os {
        HostOs::MacOs => seq!["/Volumes"@, "/dev"@],
        HostOs::Linux => seq!["/proc"@, "/sys"@, "/dev"@, "/run"@, "/tmp"@, "/var/tmp"@, "/snap"@, "/lost+found"@],
        HostOs::Other => Seq::empty(),
    }
}

pub fn default_localpaths(os: HostOs) -> (r: Vec<String>)
    ensures
        string_views(r@) == localpaths_spec(os),
{
    match os {
        HostOs::MacOs => {
            let r = strings_of(&["/Users"]);
            proof {
                assert(["/Users"]@.map_values(|s: &str| s@) =~= seq!["/Users"@]);
            }
            r
        },
        HostOs::Linux => {
            let r = strings_of(&["/home", "/etc", "/usr", "/opt"]);
            proof {
                assert(["/home", "/etc", "/usr", "/opt"]@.map_values(|s: &str| s@) =~= seq!["/home"@, "/etc"@, "/usr"@, "/opt"@]);
            }
            r
        },
        HostOs::Other => {
            let r = strings_of(&["/"]);
            proof {
                assert(["/"]@.map_values(|s: &str| s@) =~= seq!["/"@]);
            }
            r
        },
    }
}

pub fn default_prunepaths(os: HostOs) -> (r: Vec<String>)
    ensures
        string_views(r@) == prunepaths_spec(os),
{
    match os {
        HostOs::MacOs => {
            let r = strings_of(&["/Volumes", "/dev"]);
            proof {
                assert(["/Volumes", "/dev"]@.map_values(|s: &str| s@) =~= seq!["/Volumes"@, "/dev"@]);
            }
            r
        },
        HostOs::Linux => {
            let r = strings_of(&["/proc", "/sys", "/dev", "/run", "/tmp", "/var/tmp", "/snap", "/lost+found"]);
            proof {
                assert(["/proc", "/sys", "/dev", "/run", "/tmp", "/var/tmp", "/snap", "/lost+found"]@.map_values(|s: &str| s@)
                    =~= seq!["/proc"@, "/sys"@, "/dev"@, "/run"@, "/tmp"@, "/var/tmp"@, "/snap"@, "/lost+found"@]);
            }
            r
        },
        HostOs::Other => {
            let r: Vec<String> = Vec::new();
            proof {
                assert(string_views(r@) =~= Seq::<Seq<char>>::empty());
            }
            r
        },
    }
}

} // verus!
