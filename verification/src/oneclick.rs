//! GameBanana 1-Click installs: which browser requests are trusted before
//! anything touches the network, and the one-request-at-a-time protocol
//! between the listener, the confirmation popup and the download.
use vstd::prelude::*;
use crate::text::{eq_chars, to_chars};
use crate::updater::{parse_u64, parse_u64_exec};

verus! {

/// A 1-Click request as the browser hands it over.
pub struct OneClick {
    pub url: String,
    pub model: String,
    pub item_id: u32,
}

/// Why a request was turned down.
#[derive(Clone, Copy, Debug, PartialEq, Eq, Structural)]
pub enum OneClickError {
    NotAMod,
    InvalidUrl,
    NotSecure,
    NotGameBanana,
    NoFileId,
    UnsupportedPath,
    InvalidFileId,
    AlreadyInstalled,
    DifferentMod,
    WrongGame,
    FileNotInMod,
}

/// The text shown to the user for a refused request.
pub open spec fn error_text(e: OneClickError) -> Seq<char> {
    match e {
        OneClickError::NotAMod => "Only GameBanana mods can be installed"@,
        OneClickError::InvalidUrl => "The 1-click URL is invalid"@,
        OneClickError::NotSecure => "The 1-click URL is not secure"@,
        OneClickError::NotGameBanana => "The 1-click URL is not from GameBanana"@,
        OneClickError::NoFileId => "The 1-click URL has no file ID"@,
        OneClickError::UnsupportedPath => "The 1-click URL has an unsupported path"@,
        OneClickError::InvalidFileId => "The 1-click URL has an invalid file ID"@,
        OneClickError::AlreadyInstalled => "This mod file is already installed"@,
        OneClickError::DifferentMod => "GameBanana returned a different mod"@,
        OneClickError::WrongGame => "This mod is not for Neverness to Everness"@,
        OneClickError::FileNotInMod => "The requested file is not part of this mod"@,
    }
}

impl OneClickError {
    /// The text shown to the user.
    pub fn message(&self) -> (r: String)
        ensures
            r@ == error_text(*self),
    {
        match self {
            OneClickError::NotAMod => "Only GameBanana mods can be installed".to_string(),
            OneClickError::InvalidUrl => "The 1-click URL is invalid".to_string(),
            OneClickError::NotSecure => "The 1-click URL is not secure".to_string(),
            OneClickError::NotGameBanana => "The 1-click URL is not from GameBanana".to_string(),
            OneClickError::NoFileId => "The 1-click URL has no file ID".to_string(),
            OneClickError::UnsupportedPath => "The 1-click URL has an unsupported path".to_string(),
            OneClickError::InvalidFileId => "The 1-click URL has an invalid file ID".to_string(),
            OneClickError::AlreadyInstalled => "This mod file is already installed".to_string(),
            OneClickError::DifferentMod => "GameBanana returned a different mod".to_string(),
            OneClickError::WrongGame => "This mod is not for Neverness to Everness".to_string(),
            OneClickError::FileNotInMod => "The requested file is not part of this mod".to_string(),
        }
    }
}

/// What the URL parser reports of a URL: its scheme, its host and its path
/// segments (none for a URL that cannot be a base).
pub struct UrlParts {
    pub scheme: String,
    pub host: Option<String>,
    pub segments: Option<Vec<String>>,
}

pub open spec fn parts_view(p: UrlParts) -> (Seq<char>, Option<Seq<char>>, Option<Seq<Seq<char>>>) {
    (
        p.scheme@,
        match p.host {
            Some(h) => Some(h@),
            None => None,
        },
        match p.segments {
            Some(s) => Some(s@.map_values(|x: String| x@)),
            None => None,
        },
    )
}

/// What `url::Url::parse` makes of a text (WHATWG URL parsing): `None` where
/// it fails, else the scheme, the host and the path segments of the URL.
pub uninterp spec fn parsed_url(text: Seq<char>) -> Option<(Seq<char>, Option<Seq<char>>, Option<Seq<Seq<char>>>)>;

/// `url::Url::parse`, read back through `scheme`, `host_str` and
/// `path_segments`. The parse itself is named by `parsed_url`, not stated.
#[verifier::external_body]
fn parse_url(text: &str) -> (r: Option<UrlParts>)
    ensures
        parsed_url(text@) == (match r {
            Some(p) => Some(parts_view(p)),
            None => None,
        }),
{
    let url = url::Url::parse(text).ok()?;
    Some(UrlParts {
        scheme: url.scheme().to_string(),
        host: url.host_str().map(|h| h.to_string()),
        segments: url.path_segments().map(|s| s.map(|x| x.to_string()).collect()),
    })
}

/// `u32::from_str`: an optional `+`, then decimal digits whose value fits.
pub open spec fn parse_u32(s: Seq<char>) -> Option<u32> {
    match parse_u64(s) {
        Some(v) => if v <= u32::MAX {
            Some(v as u32)
        } else {
            None
        },
        None => None,
    }
}

pub fn parse_u32_exec(s: &[char]) -> (r: Option<u32>)
    ensures
        r == parse_u32(s@),
{
    match parse_u64_exec(s) {
        Some(v) => if v <= u32::MAX as u64 {
            Some(v as u32)
        } else {
            None
        },
        None => None,
    }
}

/// The file ID a request names, or why it is refused, given the request's
/// model and what the URL parser made of its URL.
pub open spec fn spec_check_request(
    model: Seq<char>,
    parts: Option<(Seq<char>, Option<Seq<char>>, Option<Seq<Seq<char>>>)>,
) -> Result<u32, OneClickError> {
    if model != "Mod"@ {
        Err(OneClickError::NotAMod)
    } else {
        match parts {
            None => Err(OneClickError::InvalidUrl),
            Some((scheme, host, segments)) => if scheme != "https"@ {
                Err(OneClickError::NotSecure)
            } else if host != Some("gamebanana.com"@) {
                Err(OneClickError::NotGameBanana)
            } else {
                match segments {
                    None => Err(OneClickError::NoFileId),
                    Some(s) => if s.len() != 2 || (s[0] != "mmdl"@ && s[0] != "dl"@) {
                        Err(OneClickError::UnsupportedPath)
                    } else {
                        match parse_u32(s[1]) {
                            Some(id) => Ok(id),
                            None => Err(OneClickError::InvalidFileId),
                        }
                    },
                }
            },
        }
    }
}

fn same_text(a: &str, b: &str) -> (r: bool)
    ensures
        r == (a@ == b@),
{
    let x = to_chars(a);
    let y = to_chars(b);
    eq_chars(x.as_slice(), y.as_slice())
}

/// Checks a request's model and parsed URL: only an `https` URL on
/// `gamebanana.com` whose path is `mmdl/<id>` or `dl/<id>` names a file.
pub fn check_request(model: &str, parts: Option<UrlParts>) -> (r: Result<u32, OneClickError>)
    ensures
        r == spec_check_request(
            model@,
            match parts {
                Some(p) => Some(parts_view(p)),
                None => None,
            },
        ),
{
    if !same_text(model, "Mod") {
        return Err(OneClickError::NotAMod);
    }
    let p = match parts {
        None => return Err(OneClickError::InvalidUrl),
        Some(p) => p,
    };
    if !same_text(p.scheme.as_str(), "https") {
        return Err(OneClickError::NotSecure);
    }
    let host_ok = match &p.host {
        Some(h) => same_text(h.as_str(), "gamebanana.com"),
        None => false,
    };
    if !host_ok {
        return Err(OneClickError::NotGameBanana);
    }
    let segments = match p.segments {
        None => return Err(OneClickError::NoFileId),
        Some(s) => s,
    };
    let ghost sv = segments@.map_values(|x: String| x@);
    if segments.len() != 2 {
        return Err(OneClickError::UnsupportedPath);
    }
    assert(sv[0] == segments@[0]@ && sv[1] == segments@[1]@);
    if !same_text(segments[0].as_str(), "mmdl") && !same_text(segments[0].as_str(), "dl") {
        return Err(OneClickError::UnsupportedPath);
    }
    let id = to_chars(segments[1].as_str());
    match parse_u32_exec(id.as_slice()) {
        Some(v) => Ok(v),
        None => Err(OneClickError::InvalidFileId),
    }
}

/// One file of a GameBanana mod.
pub struct ModFile {
    pub id: u32,
    pub name: String,
    pub size: u64,
    pub download_count: u64,
}

/// What GameBanana reports of a mod, as far as the check needs it.
pub struct ModProfile {
    pub id: u32,
    pub game_id: u32,
    pub files: Vec<ModFile>,
}

pub open spec fn has_file(files: Seq<ModFile>, file_id: u32) -> bool {
    exists|i: int| 0 <= i < files.len() && files[i].id == file_id
}

/// Checks the mod that GameBanana returned against the request: it must be
/// the requested mod, of the expected game, and hold the requested file,
/// which is handed back (the first one with that ID).
pub fn check_profile(profile: ModProfile, item_id: u32, game_id: u32, file_id: u32) -> (r: Result<
    ModFile,
    OneClickError,
>)
    ensures
        profile.id != item_id ==> r == Err::<ModFile, OneClickError>(OneClickError::DifferentMod),
        profile.id == item_id && profile.game_id != game_id ==> r == Err::<ModFile, OneClickError>(
            OneClickError::WrongGame,
        ),
        profile.id == item_id && profile.game_id == game_id && !has_file(profile.files@, file_id)
            ==> r == Err::<ModFile, OneClickError>(OneClickError::FileNotInMod),
        r is Ok ==> profile.id == item_id && profile.game_id == game_id && exists|i: int|
            0 <= i < profile.files@.len() && profile.files@[i] == r->Ok_0 && r->Ok_0.id == file_id
                && forall|j: int| 0 <= j < i ==> #[trigger] profile.files@[j].id != file_id,
        profile.id == item_id && profile.game_id == game_id && has_file(profile.files@, file_id)
            ==> r is Ok,
{
    if profile.id != item_id {
        return Err(OneClickError::DifferentMod);
    }
    if profile.game_id != game_id {
        return Err(OneClickError::WrongGame);
    }
    match first_file(profile.files, file_id) {
        Some(f) => Ok(f),
        None => Err(OneClickError::FileNotInMod),
    }
}

/// The first file with the ID, if there is one.
fn first_file(files: Vec<ModFile>, file_id: u32) -> (r: Option<ModFile>)
    ensures
        r is None <==> !has_file(files@, file_id),
        r is Some ==> exists|i: int|
            0 <= i < files@.len() && files@[i] == r->0 && r->0.id == file_id && forall|j: int|
                0 <= j < i ==> #[trigger] files@[j].id != file_id,
{
    let ghost all = files@;
    let mut rest = files;
    let mut taken: usize = 0;
    let n = rest.len();
    while taken < n
        invariant
            n == all.len(),
            all == files@,
            taken <= n,
            rest@ == all.subrange(taken as int, n as int),
            forall|j: int| 0 <= j < taken ==> #[trigger] all[j].id != file_id,
        decreases n - taken,
    {
        let f = rest.remove(0);
        assert(f == all[taken as int]);
        if f.id == file_id {
            assert(all[taken as int] == f);
            return Some(f);
        }
        taken = taken + 1;
        assert(rest@ =~= all.subrange(taken as int, n as int));
    }
    assert(!has_file(all, file_id)) by {
        assert forall|i: int| 0 <= i < all.len() implies all[i].id != file_id by {
            assert(all[i].id != file_id);
        }
    }
    None
}

/// A confirmed-looking request waiting for the user's answer.
pub struct PendingInstall {
    pub mod_id: u32,
    pub author: String,
    pub name: String,
    pub thumbnail: Vec<u8>,
    pub file: ModFile,
}

/// Why a request cannot start now.
#[derive(Clone, Copy, Debug, PartialEq, Eq, Structural)]
pub enum Busy {
    InstallInProgress,
    PopupActive,
    RequestInProgress,
}

/// The warning shown to the user while the slot is taken.
pub open spec fn busy_text(e: Busy) -> Seq<char> {
    match e {
        Busy::InstallInProgress => "Another install is in progress"@,
        Busy::PopupActive => "Another action requires confirmation"@,
        Busy::RequestInProgress => "Another 1-click request is in progress"@,
    }
}

impl Busy {
    /// The warning shown to the user.
    pub fn message(&self) -> (r: String)
        ensures
            r@ == busy_text(*self),
    {
        match self {
            Busy::InstallInProgress => "Another install is in progress".to_string(),
            Busy::PopupActive => "Another action requires confirmation".to_string(),
            Busy::RequestInProgress => "Another 1-click request is in progress".to_string(),
        }
    }
}

/// The listener's and the request's state: whether the listener should keep
/// running, whether a request holds the single slot, and the install that
/// waits for the user's answer.
pub struct OneClickHandler {
    request_active: bool,
    listener_running: bool,
    pending: Option<PendingInstall>,
}

impl OneClickHandler {
    /// Checks a request before any network work: the file ID it names, or
    /// why it is refused.
    pub fn validate_local(request: &OneClick) -> (r: Result<u32, OneClickError>)
        ensures
            r == spec_check_request(request.model@, parsed_url(request.url@)),
    {
        let parts = parse_url(request.url.as_str());
        check_request(request.model.as_str(), parts)
    }

    pub closed spec fn active(&self) -> bool {
        self.request_active
    }

    pub closed spec fn listening(&self) -> bool {
        self.listener_running
    }

    pub closed spec fn waiting(&self) -> bool {
        self.pending is Some
    }

    pub closed spec fn pending_install(&self) -> Option<PendingInstall> {
        self.pending
    }

    /// No request, no listener, nothing waiting.
    pub fn new() -> (r: Self)
        ensures
            !r.active(),
            !r.listening(),
            !r.waiting(),
    {
        OneClickHandler { request_active: false, listener_running: false, pending: None }
    }

    /// The listener starts.
    pub fn start_listening(&mut self)
        ensures
            final(self).listening(),
            final(self).active() == old(self).active(),
            final(self).waiting() == old(self).waiting(),
    {
        self.listener_running = true;
    }

    /// Asks the listener to stop at its next timeout.
    pub fn shutdown(&mut self)
        ensures
            !final(self).listening(),
            final(self).active() == old(self).active(),
            final(self).waiting() == old(self).waiting(),
    {
        self.listener_running = false;
    }

    /// Whether the listener goes on after a timeout.
    pub fn keep_listening(&self) -> (r: bool)
        ensures
            r == self.listening(),
    {
        self.listener_running
    }

    /// A request arrives: it takes the single slot unless an install runs,
    /// a popup is open or another request holds the slot.
    pub fn try_begin(&mut self, install_in_progress: bool, popup_active: bool) -> (r: Result<(), Busy>)
        ensures
            install_in_progress ==> r == Err::<(), Busy>(Busy::InstallInProgress),
            !install_in_progress && popup_active ==> r == Err::<(), Busy>(Busy::PopupActive),
            !install_in_progress && !popup_active && old(self).active() ==> r == Err::<(), Busy>(
                Busy::RequestInProgress,
            ),
            !install_in_progress && !popup_active && !old(self).active() ==> r is Ok,
            final(self).active() == (old(self).active() || r is Ok),
            final(self).listening() == old(self).listening(),
            final(self).waiting() == old(self).waiting(),
    {
        if install_in_progress {
            return Err(Busy::InstallInProgress);
        }
        if popup_active {
            return Err(Busy::PopupActive);
        }
        if self.request_active {
            return Err(Busy::RequestInProgress);
        }
        self.request_active = true;
        Ok(())
    }

    /// A request is refused (or its window is gone): the slot is free.
    pub fn reject(&mut self)
        ensures
            !final(self).active(),
            final(self).listening() == old(self).listening(),
            final(self).waiting() == old(self).waiting(),
    {
        self.request_active = false;
    }

    /// The checked request asks the user: it waits for an answer unless an
    /// install started or a popup opened meanwhile, in which case the slot is
    /// freed.
    pub fn stage(&mut self, pending: PendingInstall, install_in_progress: bool, popup_active: bool) -> (r:
        Result<(), Busy>)
        ensures
            install_in_progress ==> r == Err::<(), Busy>(Busy::InstallInProgress),
            !install_in_progress && popup_active ==> r == Err::<(), Busy>(Busy::PopupActive),
            !install_in_progress && !popup_active ==> r is Ok,
            r is Ok ==> final(self).waiting() && final(self).pending_install() == Some(pending)
                && final(self).active() == old(self).active(),
            r is Err ==> !final(self).active() && final(self).waiting() == old(self).waiting(),
            final(self).listening() == old(self).listening(),
    {
        if install_in_progress {
            self.request_active = false;
            return Err(Busy::InstallInProgress);
        }
        if popup_active {
            self.request_active = false;
            return Err(Busy::PopupActive);
        }
        self.pending = Some(pending);
        Ok(())
    }

    /// The user confirmed: the waiting install is handed out and the slot
    /// is freed.
    pub fn confirm(&mut self) -> (r: Option<PendingInstall>)
        ensures
            r is Some == old(self).waiting(),
            r == old(self).pending_install(),
            !final(self).active(),
            !final(self).waiting(),
            final(self).listening() == old(self).listening(),
    {
        let p = self.pending.take();
        self.request_active = false;
        p
    }

    /// The user cancelled: the waiting install is dropped and the slot is
    /// freed.
    pub fn cancel(&mut self)
        ensures
            !final(self).active(),
            !final(self).waiting(),
            final(self).listening() == old(self).listening(),
    {
        self.pending = None;
        self.request_active = false;
    }
}

} // verus!
