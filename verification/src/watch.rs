//! Keeping the article list fresh: which file-system events concern it,
//! and when a burst of them leads to a rescan.

use vstd::prelude::*;
use crate::text::chars_of;

verus! {

/// The kind of a file-system event, as the watcher reports it.
#[derive(Debug, Clone, Copy, PartialEq, Eq)]
pub enum FsEventKind {
    Any,
    Access,
    Create,
    Modify,
    Remove,
    Other,
}

/// A file-system event: its kind and the paths it concerns.
#[derive(Debug, Clone)]
pub struct FsEvent {
    pub kind: FsEventKind,
    pub paths: Vec<String>,
}

/// The extension of path `p`, as `Path::extension` gives it.
pub uninterp spec fn path_extension_of(p: Seq<char>) -> Option<Seq<char>>;

/// The extension of a path (`std::path::Path::extension`).
#[verifier::external_body]
fn path_extension(p: &str) -> (r: Option<String>)
    ensures
        match r {
            Some(e) => path_extension_of(p@) == Some(e@),
            None => path_extension_of(p@) is None,
        },
{
    std::path::Path::new(p).extension().map(|e| e.to_string_lossy().into_owned())
}

/// `e` is `md` in any ASCII case.
pub open spec fn is_md_extension(e: Seq<char>) -> bool {
    e.len() == 2 && (e[0] == 'm' || e[0] == 'M') && (e[1] == 'd' || e[1] == 'D')
}

/// The path names a Markdown file.
pub open spec fn is_md_path(p: Seq<char>) -> bool {
    path_extension_of(p) matches Some(e) && is_md_extension(e)
}

/// The event creates, modifies or removes a Markdown file, so the article
/// list may have changed.
pub open spec fn relevant(kind: FsEventKind, paths: Seq<String>) -> bool {
    &&& (kind == FsEventKind::Create || kind == FsEventKind::Modify || kind
        == FsEventKind::Remove)
    &&& exists|i: int| 0 <= i < paths.len() && is_md_path(#[trigger] paths[i]@)
}

/// Whether the event may change the article list: it creates, modifies or
/// removes a file with the extension `md` (in any case).
pub fn is_relevant_event(event: &FsEvent) -> (r: bool)
    ensures
        r == relevant(event.kind, event.paths@),
{
    match event.kind {
        FsEventKind::Create | FsEventKind::Modify | FsEventKind::Remove => {},
        _ => {
            return false;
        },
    }
    let mut i: usize = 0;
    while i < event.paths.len()
        invariant
            i <= event.paths@.len(),
            event.kind == FsEventKind::Create || event.kind == FsEventKind::Modify || event.kind
                == FsEventKind::Remove,
            forall|k: int| 0 <= k < i ==> !is_md_path(#[trigger] event.paths@[k]@),
        decreases event.paths@.len() - i,
    {
        if let Some(e) = path_extension(event.paths[i].as_str()) {
            let cs = chars_of(e.as_str());
            if cs.len() == 2 && (cs[0] == 'm' || cs[0] == 'M') && (cs[1] == 'd' || cs[1] == 'D') {
                assert(is_md_path(event.paths@[i as int]@));
                return true;
            }
        }
        i = i + 1;
    }
    false
}

/// The watcher's state: nothing pending, or waiting for the file system to
/// settle after a change.
#[derive(Debug, Clone, Copy, PartialEq, Eq)]
pub enum WatchState {
    Idle,
    Settling,
}

/// What the watcher loop observed.
#[derive(Debug, Clone, Copy, PartialEq, Eq)]
pub enum WatchInput {
    /// A relevant event arrived.
    Changed,
    /// The quiet period passed without a new event.
    QuietElapsed,
    /// The event channel closed.
    Closed,
}

/// What the watcher loop does next.
#[derive(Debug, Clone, Copy, PartialEq, Eq)]
pub enum WatchAction {
    /// Wait for the next event.
    Wait,
    /// Wait for the next event or for the quiet period, whichever comes
    /// first (a new event starts the quiet period again).
    WaitQuiet,
    /// Rescan the article directory, then wait for the next event.
    Refresh,
    /// Stop watching.
    Stop,
}

/// The watcher's decisions: a change starts (or restarts) the quiet period;
/// once it passes, the articles are rescanned; a closed channel stops an
/// idle watcher, while a settling one keeps waiting for quiet.
pub open spec fn watch_step_spec(s: WatchState, i: WatchInput) -> (WatchState, WatchAction) {
    match (s, i) {
        (WatchState::Idle, WatchInput::Changed) => (WatchState::Settling, WatchAction::WaitQuiet),
        (WatchState::Idle, WatchInput::QuietElapsed) => (WatchState::Idle, WatchAction::Wait),
        (WatchState::Idle, WatchInput::Closed) => (WatchState::Idle, WatchAction::Stop),
        (WatchState::Settling, WatchInput::Changed) => (
            WatchState::Settling,
            WatchAction::WaitQuiet,
        ),
        (WatchState::Settling, WatchInput::QuietElapsed) => (WatchState::Idle, WatchAction::Refresh),
        (WatchState::Settling, WatchInput::Closed) => (WatchState::Settling, WatchAction::WaitQuiet),
    }
}

/// One step of the watcher loop.
pub fn watch_step(state: WatchState, input: WatchInput) -> (r: (WatchState, WatchAction))
    ensures
        r == watch_step_spec(state, input),
{
    match (state, input) {
        (WatchState::Idle, WatchInput::Changed) => (WatchState::Settling, WatchAction::WaitQuiet),
        (WatchState::Idle, WatchInput::QuietElapsed) => (WatchState::Idle, WatchAction::Wait),
        (WatchState::Idle, WatchInput::Closed) => (WatchState::Idle, WatchAction::Stop),
        (WatchState::Settling, WatchInput::Changed) => (
            WatchState::Settling,
            WatchAction::WaitQuiet,
        ),
        (WatchState::Settling, WatchInput::QuietElapsed) => (WatchState::Idle, WatchAction::Refresh),
        (WatchState::Settling, WatchInput::Closed) => (WatchState::Settling, WatchAction::WaitQuiet),
    }
}

/// A rescan happens only after a quiet period that followed a change, and
/// leaves the watcher idle; a change is never dropped, since it always
/// leads to waiting for quiet.
pub proof fn law_refresh_only_after_quiet(s: WatchState, i: WatchInput)
    ensures
        watch_step_spec(s, i).1 == WatchAction::Refresh <==> (s == WatchState::Settling && i
            == WatchInput::QuietElapsed),
        watch_step_spec(s, i).1 == WatchAction::Refresh ==> watch_step_spec(s, i).0
            == WatchState::Idle,
        i == WatchInput::Changed ==> watch_step_spec(s, i) == (
            WatchState::Settling,
            WatchAction::WaitQuiet,
        ),
{
}

/// The extensions read as Markdown: `md` in any ASCII case.
pub open spec fn markdown_extension(e: Seq<char>) -> bool {
    e == seq!['m', 'd'] || e == seq!['M', 'd'] || e == seq!['m', 'D'] || e == seq!['M', 'D']
}

/// A file event matters exactly when it creates, modifies or removes a
/// file and one of its paths has the extension `md` in some ASCII case:
/// access events and events on other files never do.
pub proof fn law_only_markdown_changes_matter(kind: FsEventKind, paths: Seq<String>)
    ensures
        relevant(kind, paths) <==> ((kind == FsEventKind::Create || kind == FsEventKind::Modify
            || kind == FsEventKind::Remove) && exists|i: int|
            0 <= i < paths.len() && (path_extension_of(#[trigger] paths[i]@) matches Some(e)
                && markdown_extension(e))),
{
    assert forall|e: Seq<char>| is_md_extension(e) <==> markdown_extension(e) by {
        if is_md_extension(e) {
            if e[0] == 'm' && e[1] == 'd' {
                assert(e =~= seq!['m', 'd']);
            } else if e[0] == 'M' && e[1] == 'd' {
                assert(e =~= seq!['M', 'd']);
            } else if e[0] == 'm' && e[1] == 'D' {
                assert(e =~= seq!['m', 'D']);
            } else {
                assert(e =~= seq!['M', 'D']);
            }
        }
    }
}

} // verus!
