//! The state behind the copier's window: the source list, the destination,
//! the progress shown and the status line, and how each user action and each
//! progress report changes them.
use vstd::prelude::*;
use crate::engine::{CopyJob, CopyMode, CopyProgress, report_is};
use crate::format::{fmt_size, size_text};
use crate::paths::{
    copy_bytes, copy_path, copy_paths, find_key, keys_distinct, lemma_path_views_push, listed, path_view, with_path,
    path_views, SourcePath,
};
use crate::text::{chars_of, contains_chars, digits, matches_at, occurs_at, push_decimal, push_seq, string_from_chars};

verus! {

/// A fraction `num / den` of the progress bar, with `num <= den` and
/// `den > 0`.
#[derive(Debug, Clone, Copy, PartialEq, Eq, Structural)]
pub struct Fraction {
    pub num: u64,
    pub den: u64,
}

/// The fraction is a proper part of the bar.
pub open spec fn fraction_ok(f: Fraction) -> bool {
    f.den > 0 && f.num <= f.den
}

/// `a` is strictly below `b`.
pub open spec fn fraction_lt(a: Fraction, b: Fraction) -> bool {
    a.num * b.den < b.num * a.den
}

/// The share of the bytes copied, capped at one: `done / total`, or zero
/// when the total is unknown (zero).
pub open spec fn bar_fraction(done: u64, total: u64) -> Fraction {
    if total == 0 {
        Fraction { num: 0, den: 1 }
    } else if done >= total {
        Fraction { num: 1, den: 1 }
    } else {
        Fraction { num: done, den: total }
    }
}

/// The bar after a new reading: it moves only forward.
pub open spec fn bar_step(shown: Fraction, reading: Fraction) -> Fraction {
    if fraction_lt(shown, reading) {
        reading
    } else {
        shown
    }
}

/// How the status line is coloured.
#[derive(Debug, Clone, Copy, PartialEq, Eq, Structural)]
pub enum StatusTone {
    /// The message mentions an error (red).
    Error,
    /// The message starts with "Done" (green).
    Done,
    /// Anything else (yellow).
    Busy,
}

/// The tone of a status message.
pub open spec fn tone_of(s: Seq<char>) -> StatusTone {
    if exists|i: int| #[trigger] occurs_at(s, "error"@, i) {
        StatusTone::Error
    } else if s.len() >= 4 && s.take(4) == "Done"@ {
        StatusTone::Done
    } else {
        StatusTone::Busy
    }
}

/// The status line after a finished copy without errors.
pub open spec fn done_text(files: u64, bytes: u64) -> Seq<char> {
    "Done \u{2014} "@ + digits(files as nat) + " files, "@ + size_text(bytes as nat)
}

/// The status line after a finished copy with errors.
pub open spec fn done_with_errors_text(errors: nat) -> Seq<char> {
    "Done with "@ + digits(errors) + " error(s)"@
}

/// The byte strings of a list of paths, in order.
fn path_bytes(v: &Vec<SourcePath>) -> (c: Vec<Vec<u8>>)
    ensures
        c@.len() == v@.len(),
        forall|i: int| 0 <= i < v@.len() ==> #[trigger] c@[i]@ == v@[i].path@,
{
    let mut c: Vec<Vec<u8>> = Vec::new();
    let mut i: usize = 0;
    while i < v.len()
        invariant
            i <= v.len(),
            c@.len() == i,
            forall|k: int| 0 <= k < i ==> #[trigger] c@[k]@ == v@[k].path@,
        decreases v.len() - i,
    {
        c.push(copy_bytes(&v[i].path));
        i = i + 1;
    }
    c
}

/// The abstract state of the window.
pub struct AppView {
    pub sources: Seq<(Seq<u8>, Seq<Seq<u8>>)>,
    pub destination: Seq<char>,
    pub mode: CopyMode,
    pub progress: CopyProgress,
    pub shown: Fraction,
    pub running: bool,
    pub selected: Option<usize>,
    pub show_errors: bool,
    pub status: Seq<char>,
}

/// The state of the copier's window.
pub struct AppState {
    sources: Vec<SourcePath>,
    destination: String,
    mode: CopyMode,
    progress: CopyProgress,
    shown: Fraction,
    running: bool,
    selected: Option<usize>,
    show_errors: bool,
    status: String,
}

/// What always holds of the window's state: no place is listed twice as a
/// source, the selection points into the list, and the bar shows a proper
/// fraction.
pub open spec fn view_ok(v: AppView) -> bool {
    &&& keys_distinct(v.sources)
    &&& (v.selected matches Some(i) ==> i < v.sources.len())
    &&& fraction_ok(v.shown)
}

impl View for AppState {
    type V = AppView;

    closed spec fn view(&self) -> AppView {
        AppView {
            sources: path_views(self.sources@),
            destination: self.destination@,
            mode: self.mode,
            progress: self.progress,
            shown: self.shown,
            running: self.running,
            selected: self.selected,
            show_errors: self.show_errors,
            status: self.status@,
        }
    }
}

impl AppState {
    /// No source is listed twice, the selection points into the list, and
    /// the bar shows a proper fraction.
    #[verifier::type_invariant]
    closed spec fn well_formed(&self) -> bool {
        &&& keys_distinct(path_views(self.sources@))
        &&& (self.selected matches Some(i) ==> i < self.sources@.len())
        &&& fraction_ok(self.shown)
    }

    /// The window as it opens: no sources, no destination, automatic mode,
    /// nothing copied.
    pub fn new() -> (s: Self)
        ensures
            s@.sources == Seq::<(Seq<u8>, Seq<Seq<u8>>)>::empty(),
            view_ok(s@),
            s@.destination == Seq::<char>::empty(),
            s@.mode == CopyMode::Auto,
            report_is(s@.progress, 0, 0, 0, 0, Seq::empty(), None, 0, Seq::empty(), false, false),
            s@.shown == (Fraction { num: 0, den: 1 }),
            !s@.running,
            s@.selected is None,
            !s@.show_errors,
            s@.status == Seq::<char>::empty(),
    {
        let s = AppState {
            sources: Vec::new(),
            destination: String::new(),
            mode: CopyMode::Auto,
            progress: CopyProgress::default(),
            shown: Fraction { num: 0, den: 1 },
            running: false,
            selected: None,
            show_errors: false,
            status: String::new(),
        };
        assert(path_views(s.sources@) =~= Seq::<(Seq<u8>, Seq<Seq<u8>>)>::empty());
        s
    }

    /// The listed sources.
    pub fn sources(&self) -> (r: &Vec<SourcePath>)
        ensures
            path_views(r@) == self@.sources,
            view_ok(self@),
    {
        proof {
            use_type_invariant(self);
        }
        &self.sources
    }

    /// The destination folder as typed or picked.
    pub fn destination(&self) -> (r: &String)
        ensures
            view_ok(self@),
            r@ == self@.destination,
    {
        proof {
            use_type_invariant(self);
        }
        &self.destination
    }

    /// The user edited the destination.
    pub fn set_destination(&mut self, destination: String)
        ensures
            view_ok(old(self)@),
            view_ok(final(self)@),
            final(self)@ == (AppView { destination: destination@, ..old(self)@ }),
    {
        proof {
            use_type_invariant(&*self);
        }
        self.destination = destination;
    }

    /// The chosen copy mode.
    pub fn mode(&self) -> (m: CopyMode)
        ensures
            view_ok(self@),
            m == self@.mode,
    {
        proof {
            use_type_invariant(self);
        }
        self.mode
    }

    /// The user picked a copy mode.
    pub fn set_mode(&mut self, mode: CopyMode)
        ensures
            view_ok(old(self)@),
            view_ok(final(self)@),
            final(self)@ == (AppView { mode, ..old(self)@ }),
    {
        proof {
            use_type_invariant(&*self);
        }
        self.mode = mode;
    }

    /// The last progress report received.
    pub fn progress(&self) -> (p: &CopyProgress)
        ensures
            view_ok(self@),
            *p == self@.progress,
    {
        proof {
            use_type_invariant(self);
        }
        &self.progress
    }

    /// A copy is under way.
    pub fn is_running(&self) -> (b: bool)
        ensures
            view_ok(self@),
            b == self@.running,
    {
        proof {
            use_type_invariant(self);
        }
        self.running
    }

    /// The selected source, if any.
    pub fn selected_source(&self) -> (r: Option<usize>)
        ensures
            view_ok(self@),
            r == self@.selected,
    {
        proof {
            use_type_invariant(self);
        }
        self.selected
    }

    /// The status line.
    pub fn status_message(&self) -> (r: &String)
        ensures
            view_ok(self@),
            r@ == self@.status,
    {
        proof {
            use_type_invariant(self);
        }
        &self.status
    }

    /// The error list is open.
    pub fn error_window_open(&self) -> (b: bool)
        ensures
            view_ok(self@),
            b == self@.show_errors,
    {
        proof {
            use_type_invariant(self);
        }
        self.show_errors
    }

    /// The user closed (or the app reopened) the error list.
    pub fn set_error_window_open(&mut self, open: bool)
        ensures
            view_ok(old(self)@),
            view_ok(final(self)@),
            final(self)@ == (AppView { show_errors: open, ..old(self)@ }),
    {
        proof {
            use_type_invariant(&*self);
        }
        self.show_errors = open;
    }

    /// Adds a source unless a path naming the same place is already listed.
    pub fn add_source(&mut self, path: SourcePath)
        ensures
            final(self)@ == (AppView {
                sources: with_path(old(self)@.sources, path_view(path)),
                ..old(self)@
            }),
            view_ok(old(self)@),
            view_ok(final(self)@),
    {
        proof {
            use_type_invariant(&*self);
        }
        let ghost before = path_views(self.sources@);
        match find_key(&self.sources, &path.key) {
            Some(i) => {
                assert(before[i as int].1 == path_view(path).1);
            },
            None => {
                let mut grown = copy_paths(&self.sources);
                let ghost pv = path_view(path);
                grown.push(path);
                proof {
                    assert(path_views(grown@) =~= before.push(pv));
                    let t = before.push(pv);
                    assert forall|x: int, y: int|
                        0 <= x < t.len() && 0 <= y < t.len() && x != y implies #[trigger] t[x].1
                        != #[trigger] t[y].1 by {
                        if x == before.len() {
                            assert(t[y] == before[y]);
                        } else if y == before.len() {
                            assert(t[x] == before[x]);
                        } else {
                            assert(t[x] == before[x]);
                            assert(t[y] == before[y]);
                        }
                    }
                }
                self.sources = grown;
            },
        }
        proof {
            use_type_invariant(&*self);
        }
    }

    /// A copy can start: none is running, some source is listed and a
    /// destination is given.
    pub fn can_start(&self) -> (b: bool)
        ensures
            view_ok(self@),
            b == (!self@.running && self@.sources.len() > 0 && self@.destination.len() > 0),
    {
        proof {
            use_type_invariant(self);
        }
        !self.running && self.sources.len() > 0 && !self.destination.as_str().is_empty()
    }
}

impl AppState {
    /// Starts a copy if one can start: hands back the job and resets the
    /// progress shown; otherwise nothing changes.
    pub fn start_copy(&mut self) -> (job: Option<CopyJob>)
        ensures
            view_ok(old(self)@),
            view_ok(final(self)@),
            !(!old(self)@.running && old(self)@.sources.len() > 0 && old(self)@.destination.len()
                > 0) ==> job is None && final(self)@ == old(self)@,
            (!old(self)@.running && old(self)@.sources.len() > 0 && old(self)@.destination.len()
                > 0) ==> {
                &&& job matches Some(j)
                &&& j.sources@.len() == old(self)@.sources.len()
                &&& forall|i: int|
                    0 <= i < j.sources@.len() ==> #[trigger] j.sources@[i]@ == old(self)@.sources[i].0
                &&& j.destination@ == old(self)@.destination
                &&& j.mode == old(self)@.mode
                &&& report_is(
                    final(self)@.progress,
                    0,
                    0,
                    0,
                    0,
                    Seq::empty(),
                    None,
                    0,
                    Seq::empty(),
                    false,
                    false,
                )
                &&& final(self)@.shown == (Fraction { num: 0, den: 1 })
                &&& final(self)@.running
                &&& final(self)@.status == "Copying\u{2026}"@
                &&& !final(self)@.show_errors
                &&& final(self)@.sources == old(self)@.sources
                &&& final(self)@.destination == old(self)@.destination
                &&& final(self)@.mode == old(self)@.mode
                &&& final(self)@.selected == old(self)@.selected
            },
    {
        proof {
            use_type_invariant(&*self);
        }
        if !self.can_start() {
            return None;
        }
        let job = CopyJob {
            sources: path_bytes(&self.sources),
            destination: self.destination.clone(),
            mode: self.mode,
        };
        self.progress = CopyProgress::default();
        self.shown = Fraction { num: 0, den: 1 };
        self.running = true;
        self.status = String::from_str("Copying\u{2026}");
        self.show_errors = false;
        proof {
            assert forall|i: int| 0 <= i < job.sources@.len() implies #[trigger] job.sources@[i]@
                == old(self)@.sources[i].0 by {
                assert(path_views(self.sources@)[i] == path_view(self.sources@[i]));
            }
        }
        Some(job)
    }

    /// Takes in a progress report: a finished report stops the copy and
    /// sums it up in the status line (opening the error list when files
    /// failed), a cancelled one stops it with "Cancelled.", any other just
    /// replaces the progress shown.
    pub fn apply_progress(&mut self, p: CopyProgress)
        ensures
            view_ok(old(self)@),
            view_ok(final(self)@),
            final(self)@.progress == p,
            final(self)@.sources == old(self)@.sources,
            final(self)@.destination == old(self)@.destination,
            final(self)@.mode == old(self)@.mode,
            final(self)@.shown == old(self)@.shown,
            final(self)@.selected == old(self)@.selected,
            p.finished ==> {
                &&& !final(self)@.running
                &&& final(self)@.status == (if p.errors@.len() == 0 {
                    done_text(p.files_done, p.bytes_done)
                } else {
                    done_with_errors_text(p.errors@.len())
                })
                &&& final(self)@.show_errors == (old(self)@.show_errors || p.errors@.len() > 0)
            },
            !p.finished && p.cancelled ==> {
                &&& !final(self)@.running
                &&& final(self)@.status == "Cancelled."@
                &&& final(self)@.show_errors == old(self)@.show_errors
            },
            !p.finished && !p.cancelled ==> {
                &&& final(self)@.running == old(self)@.running
                &&& final(self)@.status == old(self)@.status
                &&& final(self)@.show_errors == old(self)@.show_errors
            },
    {
        proof {
            use_type_invariant(&*self);
        }
        if p.finished {
            self.running = false;
            let n_errors = p.errors.len();
            if n_errors == 0 {
                let mut out = chars_of("Done \u{2014} ");
                push_decimal(&mut out, p.files_done);
                let files_word = chars_of(" files, ");
                push_seq(&mut out, &files_word);
                let size = fmt_size(p.bytes_done);
                let size_chars = chars_of(size.as_str());
                push_seq(&mut out, &size_chars);
                self.status = string_from_chars(&out);
            } else {
                let mut out = chars_of("Done with ");
                push_decimal(&mut out, n_errors as u64);
                let tail = chars_of(" error(s)");
                push_seq(&mut out, &tail);
                self.status = string_from_chars(&out);
                self.show_errors = true;
            }
        } else if p.cancelled {
            self.running = false;
            self.status = String::from_str("Cancelled.");
        }
        self.progress = p;
    }

    /// Reads the bar from the last report and moves it forward if the copy
    /// got further; returns the fraction to draw.
    pub fn update_bar(&mut self) -> (f: Fraction)
        ensures
            view_ok(old(self)@),
            view_ok(final(self)@),
            f == final(self)@.shown,
            final(self)@.shown == bar_step(
                old(self)@.shown,
                bar_fraction(old(self)@.progress.bytes_done, old(self)@.progress.bytes_total),
            ),
            final(self)@ == (AppView { shown: final(self)@.shown, ..old(self)@ }),
    {
        proof {
            use_type_invariant(&*self);
        }
        let done = self.progress.bytes_done;
        let total = self.progress.bytes_total;
        let reading = if total == 0 {
            Fraction { num: 0, den: 1 }
        } else if done >= total {
            Fraction { num: 1, den: 1 }
        } else {
            Fraction { num: done, den: total }
        };
        let shown = self.shown;
        proof {
            let (a, b, c, d) = (shown.num as nat, reading.den as nat, reading.num as nat, shown.den as nat);
            assert(a * b <= 0xffff_ffff_ffff_ffff * 0xffff_ffff_ffff_ffff) by (nonlinear_arith)
                requires
                    a <= 0xffff_ffff_ffff_ffff,
                    b <= 0xffff_ffff_ffff_ffff,
            ;
            assert(c * d <= 0xffff_ffff_ffff_ffff * 0xffff_ffff_ffff_ffff) by (nonlinear_arith)
                requires
                    c <= 0xffff_ffff_ffff_ffff,
                    d <= 0xffff_ffff_ffff_ffff,
            ;
        }
        let lhs = (shown.num as u128) * (reading.den as u128);
        let rhs = (reading.num as u128) * (shown.den as u128);
        if lhs < rhs {
            self.shown = reading;
        }
        proof {
            use_type_invariant(&*self);
        }
        self.shown
    }

    /// The user clicked the `i`-th source: it becomes selected, or
    /// unselected if it already was.
    pub fn click_source(&mut self, i: usize)
        requires
            i < old(self)@.sources.len(),
        ensures
            view_ok(old(self)@),
            view_ok(final(self)@),
            final(self)@ == (AppView {
                selected: if old(self)@.selected == Some(i) {
                    None
                } else {
                    Some(i)
                },
                ..old(self)@
            }),
    {
        proof {
            use_type_invariant(&*self);
        }
        if self.selected == Some(i) {
            self.selected = None;
        } else {
            self.selected = Some(i);
        }
    }

    /// A source is selected, so it can be removed.
    pub fn can_remove(&self) -> (b: bool)
        ensures
            view_ok(self@),
            b == (self@.selected is Some),
    {
        proof {
            use_type_invariant(self);
        }
        self.selected.is_some()
    }

    /// Removes the selected source, if any, and clears the selection.
    pub fn remove_selected(&mut self)
        ensures
            view_ok(old(self)@),
            view_ok(final(self)@),
            old(self)@.selected matches Some(i) ==> i < old(self)@.sources.len(),
            old(self)@.selected is None ==> final(self)@ == old(self)@,
            old(self)@.selected matches Some(i) ==> final(self)@ == (AppView {
                sources: old(self)@.sources.remove(i as int),
                selected: None,
                ..old(self)@
            }),
    {
        proof {
            use_type_invariant(&*self);
        }
        if let Some(idx) = self.selected {
            self.selected = None;
            let mut kept: Vec<SourcePath> = Vec::new();
            let mut k: usize = 0;
            let ghost all = path_views(self.sources@);
            while k < self.sources.len()
                invariant
                    idx < self.sources.len(),
                    all == path_views(self.sources@),
                    k <= self.sources.len(),
                    path_views(kept@) == (if k <= idx {
                        all.take(k as int)
                    } else {
                        all.remove(idx as int).take(k - 1)
                    }),
                decreases self.sources.len() - k,
            {
                if k != idx {
                    let ghost before = kept@;
                    let x = copy_path(&self.sources[k]);
                    kept.push(x);
                    proof {
                        lemma_path_views_push(before, x);
                        assert(all[k as int] == path_view(self.sources@[k as int]));
                    }
                }
                k = k + 1;
                if k <= idx {
                    assert(path_views(kept@) =~= all.take(k as int));
                } else {
                    assert(path_views(kept@) =~= all.remove(idx as int).take(k - 1));
                }
            }
            proof {
                assert(path_views(kept@) =~= all.remove(idx as int));
                let r = all.remove(idx as int);
                assert forall|a: int, b: int| 0 <= a < r.len() && 0 <= b < r.len() && a != b
                    implies #[trigger] r[a].1 != #[trigger] r[b].1 by {
                    let a2 = if a < idx { a } else { a + 1 };
                    let b2 = if b < idx { b } else { b + 1 };
                    assert(r[a] == all[a2]);
                    assert(r[b] == all[b2]);
                }
            }
            self.sources = kept;
        }
        proof {
            use_type_invariant(&*self);
        }
    }

    /// The colour of the status line.
    pub fn status_tone(&self) -> (t: StatusTone)
        ensures
            view_ok(self@),
            t == tone_of(self@.status),
    {
        proof {
            use_type_invariant(self);
        }
        let text = chars_of(self.status.as_str());
        let error_word = chars_of("error");
        if contains_chars(&text, &error_word) {
            return StatusTone::Error;
        }
        let done_word = chars_of("Done");
        if matches_at(&text, &done_word, 0) {
            proof {
                reveal_strlit("Done");
                assert(text@.subrange(0, 4) =~= text@.take(4));
            }
            StatusTone::Done
        } else {
            proof {
                reveal_strlit("Done");
                if text@.len() >= 4 && text@.take(4) == "Done"@ {
                    assert(text@.subrange(0, 4) =~= text@.take(4));
                }
            }
            StatusTone::Busy
        }
    }
}

/// Adding a path that names a listed place changes nothing, so adding the
/// same path twice is the same as adding it once; the added place is listed
/// afterwards; and no place is ever listed twice.
pub proof fn law_add_source_idempotent(s: Seq<(Seq<u8>, Seq<Seq<u8>>)>, p: (Seq<u8>, Seq<Seq<u8>>))
    requires
        keys_distinct(s),
    ensures
        with_path(with_path(s, p), p) == with_path(s, p),
        keys_distinct(with_path(s, p)),
        listed(with_path(s, p), p.1),
{
    let t = with_path(s, p);
    if !listed(s, p.1) {
        assert(t[s.len() as int] == p);
        assert forall|a: int, b: int| 0 <= a < t.len() && 0 <= b < t.len() && a != b implies
            #[trigger] t[a].1 != #[trigger] t[b].1 by {
            if a == s.len() {
                assert(t[b] == s[b]);
            } else if b == s.len() {
                assert(t[a] == s[a]);
            } else {
                assert(t[a] == s[a]);
                assert(t[b] == s[b]);
            }
        }
    }
}

/// The bar never moves back: after any reading it shows at least what it
/// showed before and at least the reading, and never more than a full bar.
pub proof fn law_bar_never_goes_back(shown: Fraction, done: u64, total: u64)
    requires
        fraction_ok(shown),
    ensures
        fraction_ok(bar_step(shown, bar_fraction(done, total))),
        !fraction_lt(bar_step(shown, bar_fraction(done, total)), shown),
        !fraction_lt(bar_step(shown, bar_fraction(done, total)), bar_fraction(done, total)),
{
    let r = bar_fraction(done, total);
    let n = bar_step(shown, r);
    assert(fraction_ok(r));
    if fraction_lt(shown, r) {
        assert(!fraction_lt(r, shown)) by (nonlinear_arith)
            requires
                shown.num * r.den < r.num * shown.den,
        ;
    } else {
    }
}

} // verus!
