//! What the directory walker does with each entry it meets: which directories it prunes
//! or has seen already, which symbolic links it follows, and which paths it hands on.
use vstd::prelude::*;
use crate::index::trigram::string_views;

verus! {

/// Whether `std::path::Path::starts_with` holds: the components of `base` are a prefix
/// of those of `path`.
pub uninterp spec fn path_has_prefix(path: Seq<char>, base: Seq<char>) -> bool;

/// `std::path::Path::new(path).starts_with(base)`.
#[verifier::external_body]
fn path_starts_with(path: &str, base: &str) -> (b: bool)
    ensures
        b == path_has_prefix(path@, base@),
{
    std::path::Path::new(path).starts_with(base)
}

/// Some prune path is a prefix of `path`, component by component.
pub open spec fn pruned_by(path: Seq<char>, prunes: Seq<Seq<char>>) -> bool {
    exists|i: int| 0 <= i < prunes.len() && #[trigger] path_has_prefix(path, prunes[i])
}

/// Whether `path` lies under one of `prunes`.
pub fn is_pruned(path: &str, prunes: &[String]) -> (b: bool)
    ensures
        b == pruned_by(path@, string_views(prunes@)),
{
    let ghost ps = string_views(prunes@);
    let mut i: usize = 0;
    while i < prunes.len()
        invariant
            0 <= i <= prunes@.len(),
            ps == string_views(prunes@),
            forall|j: int| 0 <= j < i ==> !path_has_prefix(path@, #[trigger] ps[j]),
        decreases prunes@.len() - i,
    {
        if path_starts_with(path, prunes[i].as_str()) {
            proof {
                assert(ps[i as int] == prunes@[i as int]@);
                assert(path_has_prefix(path@, ps[i as int]));
            }
            return true;
        }
        i = i + 1;
    }
    false
}

/// What the walker met: a directory, a regular file, a symbolic link, or anything else.
#[derive(Clone, Copy, PartialEq, Eq, Structural, Debug)]
pub enum EntryKind {
    Dir,
    File,
    Symlink,
    Other,
}

/// What the walker does with an entry: go on, skip a directory's contents, or hand a
/// file's path on for indexing.
#[derive(Debug)]
pub enum WalkAction {
    Continue,
    Skip,
    Send(String),
}

/// What the walker needs to decide an entry: nothing more, the identity (device and
/// inode) of a directory, the metadata of a link's target, or the link's canonical path.
#[derive(Debug)]
pub enum WalkNeed {
    Decided(WalkAction),
    DirIdentity,
    LinkTarget,
    Resolve,
}

/// The first decision on an entry of kind `kind` at `path` (`None` when the path is not
/// UTF-8): a pruned directory is skipped, another one needs its identity; a link needs
/// its target; a regular file is handed on unless pruned or not UTF-8.
pub fn first_step(kind: EntryKind, path: Option<&str>, prunes: &[String]) -> (r: WalkNeed)
    ensures
        match kind {
            EntryKind::Other => r matches WalkNeed::Decided(WalkAction::Continue),
            EntryKind::Symlink => r is LinkTarget,
            EntryKind::Dir => match path {
                Some(p) => if pruned_by(p@, string_views(prunes@)) {
                    r matches WalkNeed::Decided(WalkAction::Skip)
                } else {
                    r is DirIdentity
                },
                None => r is DirIdentity,
            },
            EntryKind::File => match path {
                Some(p) => if pruned_by(p@, string_views(prunes@)) {
                    r matches WalkNeed::Decided(WalkAction::Continue)
                } else {
                    r matches WalkNeed::Decided(WalkAction::Send(s)) && s@ == p@
                },
                None => r matches WalkNeed::Decided(WalkAction::Continue),
            },
        },
{
    match kind {
        EntryKind::Other => WalkNeed::Decided(WalkAction::Continue),
        EntryKind::Symlink => WalkNeed::LinkTarget,
        EntryKind::Dir => match path {
            Some(p) => {
                if is_pruned(p, prunes) {
                    WalkNeed::Decided(WalkAction::Skip)
                } else {
                    WalkNeed::DirIdentity
                }
            },
            None => WalkNeed::DirIdentity,
        },
        EntryKind::File => match path {
            Some(p) => {
                if is_pruned(p, prunes) {
                    WalkNeed::Decided(WalkAction::Continue)
                } else {
                    WalkNeed::Decided(WalkAction::Send(crate::text::string_from_chars(crate::text::str_chars(p).as_slice())))
                }
            },
            None => WalkNeed::Decided(WalkAction::Continue),
        },
    }
}

/// A directory whose identity was read: skipped when it was seen before (`Some(false)`
/// for "not newly recorded"), entered otherwise, and passed over when its metadata could
/// not be read (`None`).
pub fn after_dir_identity(newly_seen: Option<bool>) -> (r: WalkAction)
    ensures
        match newly_seen {
            Some(false) => r is Skip,
            _ => r is Continue,
        },
{
    match newly_seen {
        Some(false) => WalkAction::Skip,
        _ => WalkAction::Continue,
    }
}

/// A link whose target's metadata was read (`None` when it could not be): links to
/// directories, and links whose target cannot be read, are not followed; the others need
/// their canonical path.
pub fn after_link_target(target_is_dir: Option<bool>) -> (r: WalkNeed)
    ensures
        match target_is_dir {
            Some(false) => r is Resolve,
            _ => r matches WalkNeed::Decided(WalkAction::Continue),
        },
{
    match target_is_dir {
        Some(false) => WalkNeed::Resolve,
        _ => WalkNeed::Decided(WalkAction::Continue),
    }
}

/// A link resolved to `resolved` (`None` when it could not be resolved or is not
/// UTF-8) is handed on as that path unless it is pruned.
pub fn after_resolve(resolved: Option<String>, prunes: &[String]) -> (r: WalkAction)
    ensures
        match resolved {
            Some(p) => if pruned_by(p@, string_views(prunes@)) {
                r is Continue
            } else {
                r matches WalkAction::Send(s) && s@ == p@
            },
            None => r is Continue,
        },
{
    match resolved {
        Some(p) => {
            if is_pruned(p.as_str(), prunes) {
                WalkAction::Continue
            } else {
                WalkAction::Send(p)
            }
        },
        None => WalkAction::Continue,
    }
}

} // verus!
