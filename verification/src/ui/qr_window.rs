//! The QR viewer's state: the fragments shown, the grid of `rows` x `cols`
//! codes per page, the page shown and the drawing scale. Drawing the codes
//! is left to the caller, whom `update` tells when to (re)draw.
use std::ops::Range;
use vstd::prelude::*;

use crate::encode::EcLevel;

verus! {

/// What the viewer is asked to do.
#[derive(Debug, Clone, Copy, PartialEq, Eq, Structural)]
pub enum QrWindowMessage {
    Close,
    PrevPage,
    NextPage,
    RowsInc,
    RowsDec,
    ColsInc,
    ColsDec,
    ScaleInc,
    ScaleDec,
}

/// What the caller must redraw after an update.
#[derive(Debug, Clone, Copy, PartialEq, Eq, Structural)]
pub enum QrRedraw {
    /// Nothing.
    Nothing,
    /// The codes of the current page that are not drawn yet.
    Page,
    /// Every code: the drawings at the old scale are stale.
    All,
}

pub struct QrWindow {
    pub fragments: Vec<String>,
    pub ec_level: EcLevel,
    pub cols: usize,
    pub rows: usize,
    /// Pixels per module (1x, 2x, ...).
    pub scale: u32,
    pub page: usize,
    pub open: bool,
    pub fullscreen: bool,
}

/// The part of the viewer's state that messages change.
pub struct QrLayout {
    pub cols: nat,
    pub rows: nat,
    pub scale: nat,
    pub page: nat,
    pub open: bool,
}

/// The largest scale that `ScaleInc` reaches.
pub open spec fn max_scale() -> nat {
    8
}

/// `ceil(n / per_page)`.
pub open spec fn pages_for(n: nat, per_page: nat) -> nat {
    if n % per_page == 0 {
        n / per_page
    } else {
        n / per_page + 1
    }
}

/// One message applied to the layout, with `n` fragments: the new layout
/// and what to redraw.
pub open spec fn layout_step(l: QrLayout, n: nat, msg: QrWindowMessage) -> (QrLayout, QrRedraw) {
    match msg {
        QrWindowMessage::Close => (QrLayout { open: false, ..l }, QrRedraw::Nothing),
        QrWindowMessage::PrevPage => if l.page > 0 {
            (QrLayout { page: (l.page - 1) as nat, ..l }, QrRedraw::Page)
        } else {
            (l, QrRedraw::Nothing)
        },
        QrWindowMessage::NextPage => if l.page + 1 < pages_for(n, l.cols * l.rows) {
            (QrLayout { page: l.page + 1, ..l }, QrRedraw::Page)
        } else {
            (l, QrRedraw::Nothing)
        },
        QrWindowMessage::RowsInc => (QrLayout { rows: l.rows + 1, ..l }, QrRedraw::Page),
        QrWindowMessage::RowsDec => if l.rows > 1 {
            (QrLayout { rows: (l.rows - 1) as nat, ..l }, QrRedraw::Nothing)
        } else {
            (l, QrRedraw::Nothing)
        },
        QrWindowMessage::ColsInc => (QrLayout { cols: l.cols + 1, ..l }, QrRedraw::Page),
        QrWindowMessage::ColsDec => if l.cols > 1 {
            (QrLayout { cols: (l.cols - 1) as nat, ..l }, QrRedraw::Nothing)
        } else {
            (l, QrRedraw::Nothing)
        },
        QrWindowMessage::ScaleInc => (
            QrLayout {
                scale: if l.scale + 1 < max_scale() {
                    l.scale + 1
                } else {
                    max_scale()
                },
                ..l
            },
            QrRedraw::All,
        ),
        QrWindowMessage::ScaleDec => if l.scale > 1 {
            (QrLayout { scale: (l.scale - 1) as nat, ..l }, QrRedraw::All)
        } else {
            (l, QrRedraw::Nothing)
        },
    }
}

impl QrWindow {
    /// The layout part of the state.
    pub open spec fn layout(&self) -> QrLayout {
        QrLayout {
            cols: self.cols as nat,
            rows: self.rows as nat,
            scale: self.scale as nat,
            page: self.page as nat,
            open: self.open,
        }
    }

    /// What `update` needs to run without overflow: a count that can still
    /// grow by one, and for `NextPage` a page count to compare with.
    pub open spec fn can_handle(&self, msg: QrWindowMessage) -> bool {
        match msg {
            QrWindowMessage::NextPage => self.page < usize::MAX && self.cols * self.rows > 0
                && self.cols * self.rows <= usize::MAX,
            QrWindowMessage::RowsInc => self.rows < usize::MAX,
            QrWindowMessage::ColsInc => self.cols < usize::MAX,
            QrWindowMessage::ScaleInc => self.scale < u32::MAX,
            _ => true,
        }
    }

    /// Whether `update` can take `msg` (see `can_handle`).
    pub fn accepts(&self, msg: QrWindowMessage) -> (r: bool)
        ensures
            r == self.can_handle(msg),
    {
        match msg {
            QrWindowMessage::NextPage => self.page < usize::MAX && match self.cols.checked_mul(self.rows) {
                Some(pp) => pp > 0,
                None => false,
            },
            QrWindowMessage::RowsInc => self.rows < usize::MAX,
            QrWindowMessage::ColsInc => self.cols < usize::MAX,
            QrWindowMessage::ScaleInc => self.scale < u32::MAX,
            _ => true,
        }
    }

    /// A viewer of `fragments` at `scale`, on the first page of a 2 x 3 grid.
    pub fn new(fragments: Vec<String>, ec_level: EcLevel, scale: u32) -> (r: Self)
        ensures
            r.fragments@ == fragments@,
            r.ec_level == ec_level,
            r.cols == 3 && r.rows == 2 && r.scale == scale && r.page == 0,
            r.open && !r.fullscreen,
    {
        QrWindow { fragments, ec_level, cols: 3, rows: 2, scale, page: 0, open: true, fullscreen: false }
    }

    /// A viewer at scale 2, as the tests use it.
    pub fn new_for_test(fragments: Vec<String>, ec_level: EcLevel) -> (r: Self)
        ensures
            r.fragments@ == fragments@,
            r.ec_level == ec_level,
            r.cols == 3 && r.rows == 2 && r.scale == 2 && r.page == 0,
            r.open && !r.fullscreen,
    {
        Self::new(fragments, ec_level, 2)
    }

    /// Applies a message (see `layout_step`) and says what to redraw.
    pub fn update(&mut self, msg: QrWindowMessage) -> (redraw: QrRedraw)
        requires
            old(self).can_handle(msg),
        ensures
            (final(self).layout(), redraw) == layout_step(
                old(self).layout(),
                old(self).fragments@.len(),
                msg,
            ),
            final(self).fragments == old(self).fragments,
            final(self).ec_level == old(self).ec_level,
            final(self).fullscreen == old(self).fullscreen,
    {
        match msg {
            QrWindowMessage::Close => {
                self.open = false;
                QrRedraw::Nothing
            },
            QrWindowMessage::PrevPage => {
                if self.page > 0 {
                    self.page -= 1;
                    QrRedraw::Page
                } else {
                    QrRedraw::Nothing
                }
            },
            QrWindowMessage::NextPage => {
                if self.page + 1 < self.total_pages() {
                    self.page += 1;
                    QrRedraw::Page
                } else {
                    QrRedraw::Nothing
                }
            },
            QrWindowMessage::RowsInc => {
                self.rows += 1;
                QrRedraw::Page
            },
            QrWindowMessage::RowsDec => {
                if self.rows > 1 {
                    self.rows -= 1;
                }
                QrRedraw::Nothing
            },
            QrWindowMessage::ColsInc => {
                self.cols += 1;
                QrRedraw::Page
            },
            QrWindowMessage::ColsDec => {
                if self.cols > 1 {
                    self.cols -= 1;
                }
                QrRedraw::Nothing
            },
            QrWindowMessage::ScaleInc => {
                self.scale = if self.scale + 1 < 8 {
                    self.scale + 1
                } else {
                    8
                };
                QrRedraw::All
            },
            QrWindowMessage::ScaleDec => {
                if self.scale > 1 {
                    self.scale -= 1;
                    QrRedraw::All
                } else {
                    QrRedraw::Nothing
                }
            },
        }
    }

    /// Codes per page.
    pub fn per_page(&self) -> (r: usize)
        requires
            self.cols * self.rows <= usize::MAX,
        ensures
            r == self.cols * self.rows,
    {
        self.cols * self.rows
    }

    /// The number of pages: fragments over codes per page, rounded up.
    pub fn total_pages(&self) -> (r: usize)
        requires
            0 < self.cols * self.rows <= usize::MAX,
        ensures
            r == pages_for(self.fragments@.len(), (self.cols * self.rows) as nat),
    {
        let pp = self.per_page();
        let n = self.fragments.len();
        if n % pp == 0 {
            n / pp
        } else {
            assert(n / pp < n) by (nonlinear_arith)
                requires
                    pp >= 1,
                    n % pp != 0,
            ;
            n / pp + 1
        }
    }

    /// The indices of the fragments on the current page.
    pub fn page_range(&self) -> (r: Range<usize>)
        requires
            (self.page + 1) * (self.cols * self.rows) <= usize::MAX,
        ensures
            r.start == self.page * (self.cols * self.rows),
            r.end == if r.start + self.cols * self.rows < self.fragments@.len() {
                r.start + self.cols * self.rows
            } else {
                self.fragments@.len() as int
            },
    {
        assert(self.cols * self.rows <= usize::MAX) by (nonlinear_arith)
            requires
                (self.page + 1) * (self.cols * self.rows) <= usize::MAX,
        ;
        assert((self.page + 1) * (self.cols * self.rows) == self.page * (self.cols * self.rows) + self.cols * self.rows) by (nonlinear_arith);
        let pp = self.per_page();
        let start = self.page * pp;
        let end = if start + pp < self.fragments.len() {
            start + pp
        } else {
            self.fragments.len()
        };
        start..end
    }
}

/// Stepping forward and back: when `NextPage` moves to the next page,
/// `PrevPage` moves back to the page before.
pub proof fn lemma_next_then_prev(l: QrLayout, n: nat)
    requires
        layout_step(l, n, QrWindowMessage::NextPage).1 == QrRedraw::Page,
    ensures
        layout_step(layout_step(l, n, QrWindowMessage::NextPage).0, n, QrWindowMessage::PrevPage).0
            == l,
{
}

/// Page navigation keeps the page on an existing page: starting from a page
/// before the last, `NextPage` and `PrevPage` end on one too.
pub proof fn lemma_navigation_stays_in_range(l: QrLayout, n: nat, msg: QrWindowMessage)
    requires
        l.cols * l.rows > 0,
        l.page < pages_for(n, l.cols * l.rows),
        msg == QrWindowMessage::NextPage || msg == QrWindowMessage::PrevPage,
    ensures
        layout_step(l, n, msg).0.page < pages_for(n, l.cols * l.rows),
        layout_step(l, n, msg).0.cols == l.cols,
        layout_step(l, n, msg).0.rows == l.rows,
{
}

/// The grid and the scale stay usable: rows, columns and the scale never
/// drop below 1, and a scale of at most 8 stays at most 8.
pub proof fn lemma_layout_bounds(l: QrLayout, n: nat, msg: QrWindowMessage)
    requires
        l.cols >= 1,
        l.rows >= 1,
        1 <= l.scale <= max_scale(),
    ensures
        layout_step(l, n, msg).0.cols >= 1,
        layout_step(l, n, msg).0.rows >= 1,
        1 <= layout_step(l, n, msg).0.scale <= max_scale(),
{
}

/// The current page's indices lie among the fragments and number at most
/// `cols * rows`.
pub proof fn lemma_page_range_bounds(start: int, per_page: int, n: int, end: int)
    requires
        0 <= start,
        0 <= per_page,
        0 <= n,
        end == (if start + per_page < n {
            start + per_page
        } else {
            n
        }),
    ensures
        end <= n,
        end - start <= per_page,
{
}

/// Only `Close` closes the viewer, and it changes nothing else: after any
/// message the viewer is open exactly when it was open and the message is
/// not `Close`.
pub proof fn lemma_close_only_closes(l: QrLayout, n: nat, msg: QrWindowMessage)
    ensures
        layout_step(l, n, msg).0.open == (l.open && msg != QrWindowMessage::Close),
        msg == QrWindowMessage::Close ==> layout_step(l, n, msg) == (
            QrLayout { open: false, ..l },
            QrRedraw::Nothing,
        ),
{
}

/// Redrawing follows what a message changes: a new scale makes every code
/// stale, so it asks for all of them to be redrawn; moving to another page,
/// or growing the page to hold more codes, puts codes on it that may not be
/// drawn yet, so it asks for the page at least.
pub proof fn lemma_redraw_follows_change(l: QrLayout, n: nat, msg: QrWindowMessage)
    ensures
        layout_step(l, n, msg).0.scale != l.scale ==> layout_step(l, n, msg).1 == QrRedraw::All,
        layout_step(l, n, msg).0.page != l.page ==> layout_step(l, n, msg).1 != QrRedraw::Nothing,
        layout_step(l, n, msg).0.cols * layout_step(l, n, msg).0.rows > l.cols * l.rows
            ==> layout_step(l, n, msg).1 != QrRedraw::Nothing,
{
    let l2 = layout_step(l, n, msg).0;
    match msg {
        QrWindowMessage::RowsDec => {
            assert(l2.cols == l.cols && l2.rows <= l.rows);
            assert(l2.cols * l2.rows <= l.cols * l.rows) by (nonlinear_arith)
                requires
                    l2.cols == l.cols,
                    l2.rows <= l.rows,
            ;
        },
        QrWindowMessage::ColsDec => {
            assert(l2.rows == l.rows && l2.cols <= l.cols);
            assert(l2.cols * l2.rows <= l.cols * l.rows) by (nonlinear_arith)
                requires
                    l2.rows == l.rows,
                    l2.cols <= l.cols,
            ;
        },
        _ => {},
    }
}

} // verus!
