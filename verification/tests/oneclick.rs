use aurora::oneclick::{check_profile, Busy, ModFile, ModProfile, OneClick, OneClickError, OneClickHandler, PendingInstall};

fn request(url: &str) -> OneClick {
    OneClick { url: url.to_string(), model: "Mod".to_string(), item_id: 1 }
}

#[test]
fn validates_supported_file_paths() {
    for path in ["mmdl/123", "dl/456"] {
        let request = OneClick {
            url: format!("https://gamebanana.com/{path}"),
            model: "Mod".into(),
            item_id: 1,
        };
        assert!(OneClickHandler::validate_local(&request).is_ok());
    }
}

#[test]
fn rejects_untrusted_urls_before_networking() {
    for url in [
        "http://gamebanana.com/mmdl/1",
        "https://gamebanana.com.evil.test/mmdl/1",
        "https://gamebanana.com/mods/1",
        "file:///tmp/mod.zip",
    ] {
        let request = OneClick {
            url: url.into(),
            model: "Mod".into(),
            item_id: 1,
        };
        assert!(OneClickHandler::validate_local(&request).is_err(), "{url}");
    }
}

#[test]
fn each_refusal_names_its_reason() {
    assert_eq!(OneClickHandler::validate_local(&request("https://gamebanana.com/mmdl/123")), Ok(123));
    assert_eq!(OneClickHandler::validate_local(&request("http://gamebanana.com/mmdl/1")), Err(OneClickError::NotSecure));
    assert_eq!(
        OneClickHandler::validate_local(&request("https://gamebanana.com.evil.test/mmdl/1")),
        Err(OneClickError::NotGameBanana)
    );
    assert_eq!(
        OneClickHandler::validate_local(&request("https://gamebanana.com/mods/1")),
        Err(OneClickError::UnsupportedPath)
    );
    assert_eq!(
        OneClickHandler::validate_local(&request("https://gamebanana.com/dl/abc")),
        Err(OneClickError::InvalidFileId)
    );
    assert_eq!(OneClickHandler::validate_local(&request("not a url")), Err(OneClickError::InvalidUrl));
    let tool = OneClick { url: "https://gamebanana.com/dl/1".to_string(), model: "Tool".to_string(), item_id: 1 };
    assert_eq!(OneClickHandler::validate_local(&tool), Err(OneClickError::NotAMod));
    assert!(!OneClickError::NotSecure.message().is_empty());
}

fn profile(id: u32, game: u32, files: &[u32]) -> ModProfile {
    ModProfile {
        id,
        game_id: game,
        files: files.iter().map(|f| ModFile { id: *f, name: format!("f{f}.zip"), size: 10, download_count: 0 }).collect(),
    }
}

#[test]
fn profile_checks_follow_the_request() {
    assert!(check_profile(profile(7, 20, &[1, 2]), 7, 20, 2).is_ok());
    assert_eq!(check_profile(profile(8, 20, &[1]), 7, 20, 1).err(), Some(OneClickError::DifferentMod));
    assert_eq!(check_profile(profile(7, 21, &[1]), 7, 20, 1).err(), Some(OneClickError::WrongGame));
    assert_eq!(check_profile(profile(7, 20, &[1]), 7, 20, 3).err(), Some(OneClickError::FileNotInMod));
}

fn pending() -> PendingInstall {
    PendingInstall {
        mod_id: 1,
        author: "someone".to_string(),
        name: "x".to_string(),
        thumbnail: vec![],
        file: ModFile { id: 2, name: "x.zip".to_string(), size: 10, download_count: 0 },
    }
}

#[test]
fn one_request_at_a_time() {
    let mut h = OneClickHandler::new();
    assert!(h.try_begin(false, false).is_ok());
    assert_eq!(h.try_begin(false, false), Err(Busy::RequestInProgress));
    h.reject();
    assert_eq!(h.try_begin(true, false), Err(Busy::InstallInProgress));
    assert_eq!(h.try_begin(false, true), Err(Busy::PopupActive));
    assert!(h.try_begin(false, false).is_ok());
    assert!(h.stage(pending(), false, false).is_ok());
    let got = h.confirm();
    assert_eq!(got.map(|p| p.file.id), Some(2));
    assert!(h.confirm().is_none());
    let _ = Busy::InstallInProgress.message();
}

#[test]
fn listening_stops_on_shutdown() {
    let mut h = OneClickHandler::new();
    h.start_listening();
    assert!(h.keep_listening());
    h.shutdown();
    assert!(!h.keep_listening());
    h.cancel();
}
