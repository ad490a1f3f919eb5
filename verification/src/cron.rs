//! The scheduler units that run the index updater daily.
use vstd::prelude::*;
use crate::text::{append_str, str_chars, string_from_chars};

verus! {

/// The systemd service unit: a oneshot run of `HOME/bin/mupdatedb --quiet`.
pub open spec fn service_text(home: Seq<char>) -> Seq<char> {
    "[Unit]\nDescription=Update mlocate database\n\n[Service]\nType=oneshot\nExecStart="@ + home + "/bin/mupdatedb --quiet\n"@
}

/// The systemd service unit for the home directory `home`.
pub fn systemd_service(home: &str) -> (r: String)
    ensures
        r@ == service_text(home@),
{
    let mut v = str_chars("[Unit]\nDescription=Update mlocate database\n\n[Service]\nType=oneshot\nExecStart=");
    append_str(&mut v, home);
    append_str(&mut v, "/bin/mupdatedb --quiet\n");
    string_from_chars(v.as_slice())
}

/// The systemd timer unit: daily and persistent.
pub fn systemd_timer() -> (r: String)
    ensures
        r@ == "[Unit]\nDescription=Daily mlocate database update\n\n[Timer]\nOnCalendar=daily\nPersistent=true\n\n[Install]\nWantedBy=timers.target\n"@,
{
    string_from_chars(str_chars("[Unit]\nDescription=Daily mlocate database update\n\n[Timer]\nOnCalendar=daily\nPersistent=true\n\n[Install]\nWantedBy=timers.target\n").as_slice())
}

/// The launchd agent: `HOME/bin/mupdatedb --quiet` every day at 03:00, logging to
/// `HOME/Library/Logs/mlocate-mupdatedb.log`.
pub open spec fn plist_text(home: Seq<char>) -> Seq<char> {
    "<?xml version=\"1.0\" encoding=\"UTF-8\"?>\n<!DOCTYPE plist PUBLIC \"-//Apple//DTD PLIST 1.0//EN\" \"http://www.apple.com/DTDs/PropertyList-1.0.dtd\">\n<plist version=\"1.0\">\n<dict>\n    <key>Label</key>\n    <string>com.mlocate.mupdatedb</string>\n    <key>ProgramArguments</key>\n    <array>\n        <string>"@ + home + "/bin/mupdatedb</string>\n        <string>--quiet</string>\n    </array>\n    <key>StartCalendarInterval</key>\n    <dict>\n        <key>Hour</key>\n        <integer>3</integer>\n        <key>Minute</key>\n        <integer>0</integer>\n    </dict>\n    <key>StandardOutPath</key>\n    <string>"@ + home + "/Library/Logs/mlocate-mupdatedb.log</string>\n    <key>StandardErrorPath</key>\n    <string>"@ + home + "/Library/Logs/mlocate-mupdatedb.log</string>\n</dict>\n</plist>"@
}

/// The launchd agent for the home directory `home`.
pub fn launchd_plist(home: &str) -> (r: String)
    ensures
        r@ == plist_text(home@),
{
    let mut v = str_chars("<?xml version=\"1.0\" encoding=\"UTF-8\"?>\n<!DOCTYPE plist PUBLIC \"-//Apple//DTD PLIST 1.0//EN\" \"http://www.apple.com/DTDs/PropertyList-1.0.dtd\">\n<plist version=\"1.0\">\n<dict>\n    <key>Label</key>\n    <string>com.mlocate.mupdatedb</string>\n    <key>ProgramArguments</key>\n    <array>\n        <string>");
    append_str(&mut v, home);
    append_str(&mut v, "/bin/mupdatedb</string>\n        <string>--quiet</string>\n    </array>\n    <key>StartCalendarInterval</key>\n    <dict>\n        <key>Hour</key>\n        <integer>3</integer>\n        <key>Minute</key>\n        <integer>0</integer>\n    </dict>\n    <key>StandardOutPath</key>\n    <string>");
    append_str(&mut v, home);
    append_str(&mut v, "/Library/Logs/mlocate-mupdatedb.log</string>\n    <key>StandardErrorPath</key>\n    <string>");
    append_str(&mut v, home);
    append_str(&mut v, "/Library/Logs/mlocate-mupdatedb.log</string>\n</dict>\n</plist>");
    string_from_chars(v.as_slice())
}

} // verus!
