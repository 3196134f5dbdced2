//! System notifications at the end of a download.

use crate::text;
use vstd::prelude::*;
use vstd::string::*;

verus! {

/// What the system calls this program: without it, notifications would appear
/// under another program's name.
pub const APP_ID: &'static str = "com.sriva.mdm";

/// What to register with the system under a key.
#[derive(Debug)]
pub struct Registration {
    pub key: String,
    pub display_name: String,
    pub icon_uri: String,
}

/// What to register so that notifications bear this program's name and the
/// icon of its executable.
pub fn register(exe: &str) -> (r: Registration)
    ensures
        r.key@ == "Software\\Classes\\AppUserModelId\\"@ + APP_ID@,
        r.display_name@ == "MDM"@,
        r.icon_uri@ == exe@,
{
    Registration {
        key: text::join("Software\\Classes\\AppUserModelId\\", APP_ID),
        display_name: text::owned("MDM"),
        icon_uri: text::owned(exe),
    }
}

/// The title and the text of the notification for a download that is over:
/// its name, and the detail on a line of its own if there is one.
pub fn finished(name: &str, ok: bool, detail: &str) -> (r: (String, String))
    ensures
        r.0@ == if ok { "Download completato"@ } else { "Download fallito"@ },
        r.1@ == if detail@.len() == 0 { name@ } else { name@ + "\n"@ + detail@ },
{
    let summary = if ok {
        text::owned("Download completato")
    } else {
        text::owned("Download fallito")
    };
    let body = if detail.unicode_len() == 0 {
        text::owned(name)
    } else {
        let mut b: String = text::join(name, "\n");
        b.append(detail);
        b
    };
    (summary, body)
}

} // verus!
