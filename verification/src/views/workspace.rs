//! The view of a workspace: a pane in the middle, a panel, and what lies over them.

use vstd::prelude::*;

use crate::notify_cell::NotifyCell;
use crate::views::buffer::BufferViewDelegate;

verus! {

/// Which view of a window is meant.
pub type ViewId = usize;

/// What a user can ask of the view.
#[derive(Clone, Copy, Debug, PartialEq, Eq, Structural)]
pub enum WorkspaceViewAction {
    ToggleFileFinder,
}

/// The views that are shown, and where.
#[derive(Clone, Copy, Debug, PartialEq, Eq, Structural)]
pub struct WorkspaceFrame {
    pub center_pane: Option<ViewId>,
    pub modal: Option<ViewId>,
    pub left_panel: Option<ViewId>,
}

/// A view of a workspace as a mathematical value.
#[verifier::ext_equal]
pub struct WorkspaceViewModel {
    pub frame: WorkspaceFrame,
    pub active_buffer_view: Option<ViewId>,
    /// Whether the view is shown in a window.
    pub is_mounted: bool,
    /// For each observer, whether there is an update that it has not seen.
    pub unseen: Seq<bool>,
}

impl WorkspaceViewModel {
    /// The view with another frame, once its observers have something to see.
    pub open spec fn showing(self, frame: WorkspaceFrame) -> WorkspaceViewModel {
        WorkspaceViewModel { frame, unseen: self.unseen.map_values(|seen: bool| true), ..self }
    }
}

/// A view of a workspace.
pub struct WorkspaceView {
    frame: WorkspaceFrame,
    active_buffer_view: Option<ViewId>,
    is_mounted: bool,
    updates: NotifyCell<()>,
}

impl View for WorkspaceView {
    type V = WorkspaceViewModel;

    closed spec fn view(&self) -> WorkspaceViewModel {
        WorkspaceViewModel {
            frame: self.frame,
            active_buffer_view: self.active_buffer_view,
            is_mounted: self.is_mounted,
            unseen: self.updates.unseen(),
        }
    }
}

impl WorkspaceView {
    pub fn new() -> (view: WorkspaceView)
        ensures
            view@ == (WorkspaceViewModel {
                frame: WorkspaceFrame { center_pane: None, modal: None, left_panel: None },
                active_buffer_view: None,
                is_mounted: false,
                unseen: Seq::empty(),
            }),
    {
        WorkspaceView {
            frame: WorkspaceFrame { center_pane: None, modal: None, left_panel: None },
            active_buffer_view: None,
            is_mounted: false,
            updates: NotifyCell::new(()),
        }
    }

    /// Takes in that the view is shown in a window.
    pub fn will_mount(&mut self)
        ensures
            final(self)@ == (WorkspaceViewModel { is_mounted: true, ..old(self)@ }),
    {
        self.is_mounted = true;
    }

    /// Takes away what lies over the view, or puts a file finder there. The finder is
    /// only made where it is needed.
    pub fn toggle_file_finder<F>(&mut self, add_file_finder: F) where F: FnOnce() -> ViewId
        requires
            old(self)@.frame.modal is None ==> old(self)@.is_mounted && add_file_finder.requires(
                (),
            ),
        ensures
            old(self)@.frame.modal is Some ==> final(self)@ == old(self)@.showing(
                WorkspaceFrame { modal: None, ..old(self)@.frame },
            ),
            old(self)@.frame.modal is None ==> exists|finder: ViewId| #[trigger]
                add_file_finder.ensures((), finder) && final(self)@ == old(self)@.showing(
                    WorkspaceFrame { modal: Some(finder), ..old(self)@.frame },
                ),
    {
        if self.frame.modal.is_some() {
            self.frame.modal = None;
        } else {
            self.frame.modal = Some(add_file_finder());
        }
        self.updates.set(());
    }

    /// Takes an action.
    pub fn dispatch_action<F>(&mut self, action: WorkspaceViewAction, add_file_finder: F) where
        F: FnOnce() -> ViewId

        requires
            old(self)@.frame.modal is None ==> old(self)@.is_mounted && add_file_finder.requires(
                (),
            ),
        ensures
            old(self)@.frame.modal is Some ==> final(self)@ == old(self)@.showing(
                WorkspaceFrame { modal: None, ..old(self)@.frame },
            ),
            old(self)@.frame.modal is None ==> exists|finder: ViewId| #[trigger]
                add_file_finder.ensures((), finder) && final(self)@ == old(self)@.showing(
                    WorkspaceFrame { modal: Some(finder), ..old(self)@.frame },
                ),
    {
        match action {
            WorkspaceViewAction::ToggleFileFinder => self.toggle_file_finder(add_file_finder),
        }
    }

    /// Takes in that a file was opened: a view of its buffer is put in the middle, and
    /// what lies over the view is taken away. A view that is not shown makes nothing of
    /// it.
    pub fn open_buffer<F>(&mut self, add_buffer_view: F) where F: FnOnce() -> ViewId
        requires
            old(self)@.is_mounted ==> add_buffer_view.requires(()),
        ensures
            !old(self)@.is_mounted ==> final(self)@ == old(self)@,
            old(self)@.is_mounted ==> exists|buffer_view: ViewId| #[trigger]
                add_buffer_view.ensures((), buffer_view) && final(self)@ == old(self)@.showing(
                    WorkspaceFrame {
                        center_pane: Some(buffer_view),
                        modal: None,
                        ..old(self)@.frame
                    },
                ),
    {
        if self.is_mounted {
            let buffer_view = add_buffer_view();
            self.frame.center_pane = Some(buffer_view);
            self.frame.modal = None;
            self.updates.set(());
        }
    }

    /// The views that are shown, and where.
    pub fn render(&self) -> (frame: WorkspaceFrame)
        ensures
            frame == self@.frame,
    {
        self.frame
    }

    /// Takes in that the file finder was closed.
    pub fn did_close(&mut self)
        ensures
            final(self)@ == old(self)@.showing(WorkspaceFrame { modal: None, ..old(self)@.frame }),
    {
        self.frame.modal = None;
        self.updates.set(());
    }

    /// Adds an observer of updates.
    pub fn updates(&mut self) -> (observer: usize)
        ensures
            observer == old(self)@.unseen.len(),
            final(self)@ == (WorkspaceViewModel {
                unseen: old(self)@.unseen.push(false),
                ..old(self)@
            }),
    {
        self.updates.observe()
    }

    /// Whether there was an update since an observer last polled.
    pub fn poll(&mut self, observer: usize) -> (updated: bool)
        requires
            observer < old(self)@.unseen.len(),
        ensures
            updated == old(self)@.unseen[observer as int],
            final(self)@ == (WorkspaceViewModel {
                unseen: old(self)@.unseen.update(observer as int, false),
                ..old(self)@
            }),
    {
        self.updates.poll(observer).is_some()
    }
}

impl BufferViewDelegate for WorkspaceView {
    open spec fn spec_active_buffer_view(&self) -> Option<ViewId> {
        self@.active_buffer_view
    }

    fn set_active_buffer_view(&mut self, buffer_view: ViewId)
        ensures
            final(self)@ == (WorkspaceViewModel {
                active_buffer_view: Some(buffer_view),
                ..old(self)@
            }),
    {
        self.active_buffer_view = Some(buffer_view);
    }
}

/// A view that is given another frame shows that frame, and all observers have something
/// to see.
pub proof fn law_frame_is_shown(view: WorkspaceViewModel, frame: WorkspaceFrame)
    ensures
        view.showing(frame).frame == frame,
        view.showing(frame).active_buffer_view == view.active_buffer_view,
        view.showing(frame).is_mounted == view.is_mounted,
        view.showing(frame).unseen.len() == view.unseen.len(),
        forall|i: int|
            0 <= i < view.unseen.len() ==> #[trigger] view.showing(frame).unseen[i],
{
}

} // verus!
