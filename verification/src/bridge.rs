//! The bridge between the engine and the window: how each engine event is
//! answered, for a normal session and for a quick start without a window,
//! and which add-on files a launch brings.
use vstd::prelude::*;
use crate::text::{concat_chars, from_chars, join, join_strings, strings_view, to_chars};
use crate::updater::LaunchState;

verus! {

/// What the engine reports.
pub enum EngineEvent {
    EngineReady,
    EngineInitFailed(String),
    LaunchSuccess,
    LaunchFailed(String),
    GameClosed,
    GamePathUpdated(String),
    ValidationResult(Vec<String>),
    Toast(String, String),
    EverlightFatal(String),
    EverlightTimeout,
}

pub struct Bridge;

fn text_of(s: &str) -> (r: Vec<char>)
    ensures
        r@ == s@,
{
    to_chars(s)
}

fn owned(a: &str) -> (r: String)
    ensures
        r@ == a@,
{
    from_chars(to_chars(a).as_slice())
}

fn cat(a: &str, b: &str) -> (r: String)
    ensures
        r@ == a@ + b@,
{
    let x = to_chars(a);
    let y = to_chars(b);
    from_chars(concat_chars(x.as_slice(), y.as_slice()).as_slice())
}

fn cat3(a: &str, b: &str, c: &str) -> (r: String)
    ensures
        r@ == a@ + b@ + c@,
{
    let ab = cat(a, b);
    cat(ab.as_str(), c)
}

/// How a quick start ends on an event, if it ends there.
pub open spec fn spec_quick_start_outcome(event: EngineEvent) -> Option<Result<(), Seq<char>>> {
    match event {
        EngineEvent::EngineInitFailed(msg) => Some(
            Err("Quick start failed: engine could not initialise: "@ + msg@),
        ),
        EngineEvent::LaunchFailed(msg) => Some(Err("Quick start launch failed: "@ + msg@)),
        EngineEvent::GameClosed => Some(Ok(())),
        _ => None,
    }
}

/// How a quick start ends on the events the engine sends until its channel
/// closes: at the first event that ends it, else with a closed channel.
pub open spec fn spec_quick_start(events: Seq<EngineEvent>) -> Result<(), Seq<char>>
    decreases events.len(),
{
    if events.len() == 0 {
        Err("engine event channel closed unexpectedly"@)
    } else {
        match spec_quick_start_outcome(events[0]) {
            Some(r) => r,
            None => spec_quick_start(events.drop_first()),
        }
    }
}

pub open spec fn result_view(r: Result<(), String>) -> Result<(), Seq<char>> {
    match r {
        Ok(()) => Ok(()),
        Err(e) => Err(e@),
    }
}

/// What a launch with its custom add-ons brings: nothing unless the custom
/// add-ons are switched on and some are listed.
pub open spec fn spec_custom_addon_files(toggled: bool, listed: Seq<Option<Seq<char>>>) -> Option<
    Seq<Seq<char>>,
> {
    let files = listed.filter(|x: Option<Seq<char>>| x is Some).map_values(
        |x: Option<Seq<char>>| x->0,
    );
    if !toggled || files.len() == 0 {
        None
    } else {
        Some(files)
    }
}

pub open spec fn opt_strings_view(v: Seq<Option<String>>) -> Seq<Option<Seq<char>>> {
    v.map_values(
        |x: Option<String>|
            match x {
                Some(s) => Some(s@),
                None => None,
            },
    )
}

/// The window's answer to an event: a toast (text and kind), a popup (id,
/// title and message), the new launch button state, whether the launch
/// button is enabled again, whether the window goes to or leaves the tray,
/// whether the mod manager hears that the game closed, and a new game
/// directory.
pub struct Reaction {
    pub toast: Option<(String, String)>,
    pub popup: Option<(String, String, String)>,
    pub launch_state: Option<LaunchState>,
    pub enable_launch: bool,
    pub to_tray: bool,
    pub from_tray: bool,
    pub game_closed: bool,
    pub game_directory: Option<String>,
}

pub open spec fn spec_toast(event: EngineEvent, init_warning: Option<Seq<char>>, launcher_opened: Seq<char>) -> Option<
    (Seq<char>, Seq<char>),
> {
    match event {
        EngineEvent::EngineInitFailed(msg) => match init_warning {
            Some(w) => Some((w, "warning"@)),
            None => Some(
                (
                    "Engine error: "@ + msg@ + "\nCheck your game path in Settings."@,
                    "error"@,
                ),
            ),
        },
        EngineEvent::LaunchSuccess => Some((launcher_opened, "success"@)),
        EngineEvent::LaunchFailed(msg) => Some((msg@, "error"@)),
        EngineEvent::GameClosed => Some(("Game closed."@, "success"@)),
        EngineEvent::ValidationResult(missing) => if missing@.len() == 0 {
            Some(("Validation passed! All required files are present."@, "success"@))
        } else {
            Some(
                (
                    "Missing required files:\n"@ + join(strings_view(missing@), "\n"@),
                    "error"@,
                ),
            )
        },
        EngineEvent::Toast(text, kind) => Some((text@, kind@)),
        _ => None,
    }
}

pub open spec fn spec_popup(event: EngineEvent) -> Option<(Seq<char>, Seq<char>, Seq<char>)> {
    match event {
        EngineEvent::EverlightFatal(msg) => Some(
            (
                "everlight-fatal"@,
                "Everlight fatal error"@,
                "Everlight ran into a fatal error and cannot continue this session:\n\n"@ + msg@
                    + "\n\nThe game has been closed."@,
            ),
        ),
        EngineEvent::EverlightTimeout => Some(
            (
                "everlight-timeout"@,
                "Everlight did not start"@,
                "Everlight did not produce a log file within 45 seconds, so the game has been closed.\n\nTry switching engine methods in Settings."@,
            ),
        ),
        _ => None,
    }
}

pub open spec fn spec_launch_state(event: EngineEvent, ui_locked: bool) -> Option<LaunchState> {
    match event {
        EngineEvent::LaunchSuccess => Some(LaunchState::Running),
        EngineEvent::LaunchFailed(_) => if ui_locked {
            None
        } else {
            Some(LaunchState::Launch)
        },
        EngineEvent::GameClosed => if ui_locked {
            None
        } else {
            Some(LaunchState::Launch)
        },
        _ => None,
    }
}

pub open spec fn spec_enable_launch(event: EngineEvent, ui_locked: bool) -> bool {
    !ui_locked && (event is EngineReady || event is LaunchFailed || event is GameClosed)
}

impl Bridge {
    /// How a quick start ends on one event, if it ends there.
    pub fn quick_start_outcome(event: &EngineEvent) -> (r: Option<Result<(), String>>)
        ensures
            match r {
                Some(x) => spec_quick_start_outcome(*event) == Some(result_view(x)),
                None => spec_quick_start_outcome(*event) is None,
            },
    {
        match event {
            EngineEvent::EngineInitFailed(msg) => Some(
                Err(cat("Quick start failed: engine could not initialise: ", msg.as_str())),
            ),
            EngineEvent::LaunchFailed(msg) => Some(
                Err(cat("Quick start launch failed: ", msg.as_str())),
            ),
            EngineEvent::GameClosed => Some(Ok(())),
            _ => None,
        }
    }

    /// Runs a quick start over the events the engine sends until its channel
    /// closes: the game closing ends it well, a failed start or launch ends
    /// it with the engine's message, and a channel that closes first is an
    /// error too.
    pub fn quick_start(events: &Vec<EngineEvent>) -> (r: Result<(), String>)
        ensures
            result_view(r) == spec_quick_start(events@),
    {
        let mut i: usize = 0;
        assert(events@.subrange(0, events@.len() as int) =~= events@);
        while i < events.len()
            invariant
                i <= events@.len(),
                spec_quick_start(events@) == spec_quick_start(events@.subrange(i as int, events@.len() as int)),
            decreases events.len() - i,
        {
            let ghost rest = events@.subrange(i as int, events@.len() as int);
            assert(rest[0] == events@[i as int]);
            match Self::quick_start_outcome(&events[i]) {
                Some(r) => {
                    return r;
                },
                None => {},
            }
            assert(rest.drop_first() =~= events@.subrange(i + 1, events@.len() as int));
            i = i + 1;
        }
        Err(from_chars(text_of("engine event channel closed unexpectedly").as_slice()))
    }

    /// The add-on files a launch brings, from the custom add-on switch and
    /// the listed entries (an entry that is not a text is skipped).
    pub fn custom_addon_files(toggled: bool, listed: &Vec<Option<String>>) -> (r: Option<Vec<String>>)
        ensures
            match r {
                Some(v) => spec_custom_addon_files(toggled, opt_strings_view(listed@)) == Some(
                    strings_view(v@),
                ),
                None => spec_custom_addon_files(toggled, opt_strings_view(listed@)) is None,
            },
    {
        let ghost lv = opt_strings_view(listed@);
        let ghost keep = |x: Option<Seq<char>>| x is Some;
        let ghost take = |x: Option<Seq<char>>| x->0;
        if !toggled {
            return None;
        }
        let mut out: Vec<String> = Vec::new();
        let mut i: usize = 0;
        assert(lv.subrange(0, 0).filter(keep) =~= Seq::<Option<Seq<char>>>::empty());
        while i < listed.len()
            invariant
                i <= listed@.len(),
                lv == opt_strings_view(listed@),
                keep == (|x: Option<Seq<char>>| x is Some),
                take == (|x: Option<Seq<char>>| x->0),
                strings_view(out@) == lv.subrange(0, i as int).filter(keep).map_values(take),
            decreases listed.len() - i,
        {
            assert(lv.subrange(0, i + 1).drop_last() =~= lv.subrange(0, i as int));
            assert(lv.subrange(0, i + 1).last() == lv[i as int]);
            proof {
                reveal(Seq::filter);
            }
            match &listed[i] {
                Some(s) => {
                    let c = from_chars(to_chars(s.as_str()).as_slice());
                    let ghost before = out@;
                    out.push(c);
                    assert(lv[i as int] == Some(s@));
                    assert(take(lv[i as int]) == c@);
                    assert(strings_view(out@) =~= strings_view(before).push(c@));
                    assert(lv.subrange(0, i + 1).filter(keep) =~= lv.subrange(0, i as int).filter(keep).push(lv[i as int]));
                },
                None => {
                    assert(lv[i as int] == None::<Seq<char>>);
                    assert(lv.subrange(0, i + 1).filter(keep) =~= lv.subrange(0, i as int).filter(keep));
                },
            }
            assert(strings_view(out@) =~= lv.subrange(0, i + 1).filter(keep).map_values(take));
            i = i + 1;
        }
        assert(lv.subrange(0, lv.len() as int) =~= lv);
        if out.len() == 0 {
            None
        } else {
            Some(out)
        }
    }

    /// The window's answer to an engine event. `ui_locked` tells whether an
    /// update holds the launch button, `init_warning` is the engine's own
    /// warning for a failed start (if it has one), `launcher_opened` the
    /// translated success text, and `minimize` whether the window goes to
    /// the tray while the game runs.
    pub fn react(
        event: &EngineEvent,
        ui_locked: bool,
        init_warning: Option<String>,
        launcher_opened: &str,
        minimize: bool,
    ) -> (r: Reaction)
        ensures
            match r.toast {
                Some((t, k)) => spec_toast(
                    *event,
                    match init_warning {
                        Some(w) => Some(w@),
                        None => None,
                    },
                    launcher_opened@,
                ) == Some((t@, k@)),
                None => spec_toast(
                    *event,
                    match init_warning {
                        Some(w) => Some(w@),
                        None => None,
                    },
                    launcher_opened@,
                ) is None,
            },
            match r.popup {
                Some((i, t, m)) => spec_popup(*event) == Some((i@, t@, m@)),
                None => spec_popup(*event) is None,
            },
            r.launch_state == spec_launch_state(*event, ui_locked),
            r.enable_launch == spec_enable_launch(*event, ui_locked),
            r.to_tray == (event is LaunchSuccess && minimize),
            r.from_tray == event is GameClosed,
            r.game_closed == event is GameClosed,
            match r.game_directory {
                Some(d) => event matches EngineEvent::GamePathUpdated(p) && p@ == d@,
                None => !(event is GamePathUpdated),
            },
    {
        let mut r = Reaction {
            toast: None,
            popup: None,
            launch_state: None,
            enable_launch: false,
            to_tray: false,
            from_tray: false,
            game_closed: false,
            game_directory: None,
        };
        match event {
            EngineEvent::EngineReady => {
                r.enable_launch = !ui_locked;
            },
            EngineEvent::EngineInitFailed(msg) => {
                match init_warning {
                    Some(w) => {
                        r.toast = Some((w, owned("warning")));
                    },
                    None => {
                        r.toast = Some(
                            (
                                cat3("Engine error: ", msg.as_str(), "\nCheck your game path in Settings."),
                                owned("error"),
                            ),
                        );
                    },
                }
            },
            EngineEvent::LaunchSuccess => {
                r.toast = Some((owned(launcher_opened), owned("success")));
                r.launch_state = Some(LaunchState::Running);
                r.to_tray = minimize;
            },
            EngineEvent::LaunchFailed(msg) => {
                r.toast = Some((owned(msg.as_str()), owned("error")));
                if !ui_locked {
                    r.launch_state = Some(LaunchState::Launch);
                    r.enable_launch = true;
                }
            },
            EngineEvent::GameClosed => {
                r.from_tray = true;
                r.game_closed = true;
                if !ui_locked {
                    r.launch_state = Some(LaunchState::Launch);
                    r.enable_launch = true;
                }
                r.toast = Some((owned("Game closed."), owned("success")));
            },
            EngineEvent::GamePathUpdated(path) => {
                r.game_directory = Some(owned(path.as_str()));
            },
            EngineEvent::ValidationResult(missing) => {
                if missing.len() == 0 {
                    r.toast = Some(
                        (
                            owned("Validation passed! All required files are present."),
                            owned("success"),
                        ),
                    );
                } else {
                    let joined = join_strings(missing, "\n");
                    let head = text_of("Missing required files:\n");
                    let text = from_chars(concat_chars(head.as_slice(), joined.as_slice()).as_slice());
                    r.toast = Some((text, owned("error")));
                }
            },
            EngineEvent::Toast(text, kind) => {
                r.toast = Some((owned(text.as_str()), owned(kind.as_str())));
            },
            EngineEvent::EverlightFatal(msg) => {
                r.popup = Some(
                    (
                        owned("everlight-fatal"),
                        owned("Everlight fatal error"),
                        cat3(
                            "Everlight ran into a fatal error and cannot continue this session:\n\n",
                            msg.as_str(),
                            "\n\nThe game has been closed.",
                        ),
                    ),
                );
            },
            EngineEvent::EverlightTimeout => {
                r.popup = Some(
                    (
                        owned("everlight-timeout"),
                        owned("Everlight did not start"),
                        owned(
                            "Everlight did not produce a log file within 45 seconds, so the game has been closed.\n\nTry switching engine methods in Settings."),
                    ),
                );
            },
        }
        r
    }
}

} // verus!
