//! The encoding panel's state and its reactions to the user. Work that
//! leaves the program (the file dialog, reading the chosen file, drawing
//! the codes) is asked for through the action that each reaction returns;
//! the caller does it and hands the outcome back (`file_picked`,
//! `file_loaded`).
use vstd::prelude::*;
use vstd::utf8::encode_utf8;

use crate::decode::opt_string_view;
use crate::decode::xz_decoded;
use crate::encode::{
    b64_fits, encode, encoded_with, msg_too_large, string_views, EcLevel, EncodeInput,
};
use crate::text::{
    all_white, append_str, is_blank, parse_usize, parse_usize_spec, str_to_chars, string_from_chars,
};
use crate::ui::qr_window::{layout_step, lemma_close_only_closes, QrRedraw, QrWindow, QrWindowMessage};

verus! {

/// Where the data to encode comes from.
#[derive(Debug, Clone, Copy, PartialEq, Eq, Structural)]
pub enum InputMode {
    File,
    DirectText,
}

/// What the user did on the panel.
#[derive(Debug, Clone)]
pub enum EncodeMessage {
    InputModeChanged(InputMode),
    FilePathChanged(String),
    FilePickRequested,
    FileDropped(String),
    DirectTextChanged(String),
    CompressToggled(bool),
    EcLevelSelected(EcLevel),
    GeneratePressed,
    QrWindow(QrWindowMessage),
}

/// What the caller must do after a reaction.
#[derive(Debug, Clone)]
pub enum EncodeAction {
    /// Nothing.
    Nothing,
    /// Show a file dialog and hand the choice to `file_picked`.
    PickFile,
    /// Read the file at this path and hand its bytes (or the error's text)
    /// and its file name to `file_loaded`.
    ReadFile(String),
    /// Redraw the QR viewer.
    Redraw(QrRedraw),
}

pub struct EncodePanel {
    pub input_mode: InputMode,
    pub file_path: String,
    pub direct_text: String,
    pub compress: bool,
    pub ec_level: EcLevel,
    pub qr_window: Option<QrWindow>,
    pub error_msg: Option<String>,
    /// The scale that a new viewer starts at (raised to 1 when 0).
    pub qr_scale: u32,
}

impl Default for EncodePanel {
    fn default() -> (r: Self)
        ensures
            r.input_mode == InputMode::File,
            r.file_path@ == Seq::<char>::empty(),
            r.direct_text@ == Seq::<char>::empty(),
            !r.compress,
            r.ec_level == EcLevel::L,
            r.qr_window is None,
            r.error_msg is None,
            r.qr_scale == 2,
    {
        EncodePanel {
            input_mode: InputMode::File,
            file_path: String::new(),
            direct_text: String::new(),
            compress: false,
            ec_level: EcLevel::L,
            qr_window: None,
            error_msg: None,
            qr_scale: 2,
        }
    }
}

/// The message when the file path is blank.
pub open spec fn msg_no_path() -> Seq<char> {
    "ファイルパスを指定してください"@
}

/// The message when the text is blank.
pub open spec fn msg_no_text() -> Seq<char> {
    "テキストを入力してください"@
}

/// The message when the file cannot be read.
pub open spec fn msg_read_error(e: Seq<char>) -> Seq<char> {
    "ファイル読み込みエラー: "@ + e
}

/// The file name recorded for text typed in.
pub open spec fn direct_text_name() -> Seq<char> {
    "(direct_text)"@
}

/// The file name recorded when the path has none.
pub open spec fn unknown_name() -> Seq<char> {
    "unknown"@
}

/// The scale a new viewer gets: the requested one, at least 1.
pub open spec fn start_scale(requested: u32) -> u32 {
    if requested == 0 {
        1
    } else {
        requested
    }
}

/// `w` is a fresh viewer of the fragments that encoding gives for `data`
/// under `filename` (see `encoded_with`).
pub open spec fn fresh_viewer(
    w: QrWindow,
    data: Seq<u8>,
    filename: Seq<char>,
    compress: bool,
    level: EcLevel,
    scale: u32,
) -> bool {
    &&& exists|p: Seq<u8>|
        #[trigger] encoded_with(data, filename, compress, level, p, string_views(w.fragments@))
    &&& w.ec_level == level
    &&& w.cols == 3 && w.rows == 2 && w.page == 0
    &&& w.scale == start_scale(scale)
    &&& w.open && !w.fullscreen
}

/// The panel `new` after encoding `data` under `filename` from `old`: on
/// success a fresh viewer, no error and a full redraw; on failure the old
/// viewer and the message `msg_too_large`. Failure happens exactly when the
/// Base64 text of the payload (the data, or when compressing an xz stream
/// of it) would not fit in memory. The settings stay.
pub open spec fn encode_outcome(
    old: EncodePanel,
    data: Seq<u8>,
    filename: Seq<char>,
    new: EncodePanel,
    action: EncodeAction,
) -> bool {
    &&& new.input_mode == old.input_mode
    &&& new.file_path == old.file_path
    &&& new.direct_text == old.direct_text
    &&& new.compress == old.compress
    &&& new.ec_level == old.ec_level
    &&& new.qr_scale == old.qr_scale
    &&& {
        ||| {
            &&& new.qr_window matches Some(w) && fresh_viewer(
                w,
                data,
                filename,
                old.compress,
                old.ec_level,
                old.qr_scale,
            )
            &&& new.error_msg is None
            &&& action == EncodeAction::Redraw(QrRedraw::All)
            &&& !old.compress ==> b64_fits(data.len())
        }
        ||| {
            &&& new.qr_window == old.qr_window
            &&& opt_string_view(new.error_msg) == Some(msg_too_large())
            &&& action == EncodeAction::Nothing
            &&& !old.compress ==> !b64_fits(data.len())
            &&& old.compress ==> exists|p: Seq<u8>|
                #[trigger] xz_decoded(p) == Some(data) && !b64_fits(p.len())
        }
    }
}

/// `new` is `old` with the error message `m` and nothing else changed.
pub open spec fn fails_with(old: EncodePanel, new: EncodePanel, m: Seq<char>) -> bool {
    &&& new == (EncodePanel { error_msg: new.error_msg, ..old })
    &&& opt_string_view(new.error_msg) == Some(m)
}

/// What `update` needs to run without overflow: the viewer's own condition
/// for a message to it.
pub open spec fn can_handle(p: EncodePanel, msg: EncodeMessage) -> bool {
    match msg {
        EncodeMessage::QrWindow(m) => match p.qr_window {
            Some(w) => w.can_handle(m),
            None => true,
        },
        _ => true,
    }
}

/// The viewer after a message to it: `None` once it is closed.
pub open spec fn viewer_after(old: QrWindow, new: Option<QrWindow>, m: QrWindowMessage) -> bool {
    let (l, _) = layout_step(old.layout(), old.fragments@.len(), m);
    if l.open {
        new matches Some(w) && w.layout() == l && w.fragments == old.fragments && w.ec_level
            == old.ec_level && w.fullscreen == old.fullscreen
    } else {
        new is None
    }
}

/// How `update` changes the panel `old` into `new` on `msg`, asking for
/// `action`.
pub open spec fn encode_step(old: EncodePanel, msg: EncodeMessage, new: EncodePanel, action: EncodeAction) -> bool {
    match msg {
        EncodeMessage::InputModeChanged(mode) => new == (EncodePanel {
            input_mode: mode,
            ..old
        }) && action == EncodeAction::Nothing,
        EncodeMessage::FilePathChanged(p) => new == (EncodePanel {
            file_path: p,
            error_msg: None,
            ..old
        }) && action == EncodeAction::Nothing,
        EncodeMessage::FilePickRequested => new == old && action
            == EncodeAction::PickFile,
        EncodeMessage::FileDropped(p) => new == (EncodePanel {
            file_path: p,
            error_msg: None,
            ..old
        }) && action == EncodeAction::Nothing,
        EncodeMessage::DirectTextChanged(t) => new == (EncodePanel {
            direct_text: t,
            error_msg: None,
            ..old
        }) && action == EncodeAction::Nothing,
        EncodeMessage::CompressToggled(v) => new == (EncodePanel {
            compress: v,
            ..old
        }) && action == EncodeAction::Nothing,
        EncodeMessage::EcLevelSelected(l) => new == (EncodePanel {
            ec_level: l,
            ..old
        }) && action == EncodeAction::Nothing,
        EncodeMessage::GeneratePressed => match old.input_mode {
            InputMode::File => if all_white(old.file_path@) {
                fails_with(old, new, msg_no_path()) && action == EncodeAction::Nothing
            } else {
                new == (EncodePanel { error_msg: None, ..old })
                    && (action matches EncodeAction::ReadFile(p) && p@ == old.file_path@)
            },
            InputMode::DirectText => if all_white(old.direct_text@) {
                fails_with(old, new, msg_no_text()) && action == EncodeAction::Nothing
            } else {
                encode_outcome(
                    old,
                    encode_utf8(old.direct_text@),
                    direct_text_name(),
                    new,
                    action,
                )
            },
        },
        EncodeMessage::QrWindow(m) => match old.qr_window {
            None => new == old && action == EncodeAction::Nothing,
            Some(w) => {
                &&& new == (EncodePanel {
                    qr_window: new.qr_window,
                    ..old
                })
                &&& viewer_after(w, new.qr_window, m)
                &&& action == if new.qr_window is Some {
                    EncodeAction::Redraw(layout_step(w.layout(), w.fragments@.len(), m).1)
                } else {
                    EncodeAction::Nothing
                }
            },
        },
    }
}

impl EncodePanel {
    /// Encodes `data` under `filename` with the panel's settings and opens a
    /// viewer of the fragments, or records the error.
    fn encode_and_show(&mut self, data: Vec<u8>, filename: String) -> (action: EncodeAction)
        requires
            old(self).error_msg is None,
        ensures
            encode_outcome(*old(self), data@, filename@, *final(self), action),
    {
        let ghost d = data@;
        let ghost f = filename@;
        let result = encode(EncodeInput { data, filename, compress: self.compress, ec_level: self.ec_level });
        match result {
            Ok(res) => {
                let ghost frags = string_views(res.fragments@);
                assert(exists|p: Seq<u8>| #[trigger] encoded_with(d, f, self.compress, self.ec_level, p, frags));
                let scale = if self.qr_scale == 0 {
                    1
                } else {
                    self.qr_scale
                };
                let w = QrWindow::new(res.fragments, self.ec_level, scale);
                assert(string_views(w.fragments@) == frags);
                self.qr_window = Some(w);
                EncodeAction::Redraw(QrRedraw::All)
            },
            Err(e) => {
                self.error_msg = Some(e);
                EncodeAction::Nothing
            },
        }
    }

    /// Reacts to a message. Editing a field clears the error; generating
    /// checks the input, then asks for the file to be read (file mode) or
    /// encodes the text (see `encode_outcome`); a message to the viewer
    /// goes to it, and the viewer is dropped once closed.
    pub fn update(&mut self, msg: EncodeMessage) -> (action: EncodeAction)
        requires
            can_handle(*old(self), msg),
        ensures
            encode_step(*old(self), msg, *final(self), action),
    {
        match msg {
            EncodeMessage::InputModeChanged(mode) => {
                self.input_mode = mode;
                EncodeAction::Nothing
            },
            EncodeMessage::FilePathChanged(p) => {
                self.file_path = p;
                self.error_msg = None;
                EncodeAction::Nothing
            },
            EncodeMessage::FilePickRequested => EncodeAction::PickFile,
            EncodeMessage::FileDropped(p) => {
                self.file_path = p;
                self.error_msg = None;
                EncodeAction::Nothing
            },
            EncodeMessage::DirectTextChanged(t) => {
                self.direct_text = t;
                self.error_msg = None;
                EncodeAction::Nothing
            },
            EncodeMessage::CompressToggled(v) => {
                self.compress = v;
                EncodeAction::Nothing
            },
            EncodeMessage::EcLevelSelected(l) => {
                self.ec_level = l;
                EncodeAction::Nothing
            },
            EncodeMessage::GeneratePressed => self.generate(),
            EncodeMessage::QrWindow(m) => {
                match self.qr_window.take() {
                    Some(mut w) => {
                        let redraw = w.update(m);
                        if w.open {
                            self.qr_window = Some(w);
                            EncodeAction::Redraw(redraw)
                        } else {
                            EncodeAction::Nothing
                        }
                    },
                    None => EncodeAction::Nothing,
                }
            },
        }
    }

    /// The first half of generating: checks the input and, for text,
    /// encodes it.
    fn generate(&mut self) -> (action: EncodeAction)
        ensures
            encode_step(*old(self), EncodeMessage::GeneratePressed, *final(self), action),
    {
        self.error_msg = None;
        match self.input_mode {
            InputMode::File => {
                if is_blank(self.file_path.as_str()) {
                    let m = "ファイルパスを指定してください".to_owned();
                    self.error_msg = Some(m);
                    EncodeAction::Nothing
                } else {
                    EncodeAction::ReadFile(self.file_path.clone())
                }
            },
            InputMode::DirectText => {
                if is_blank(self.direct_text.as_str()) {
                    let m = "テキストを入力してください".to_owned();
                    self.error_msg = Some(m);
                    EncodeAction::Nothing
                } else {
                    let data = vstd::slice::slice_to_vec(self.direct_text.as_str().as_bytes());
                    let name = "(direct_text)".to_owned();
                    self.encode_and_show(data, name)
                }
            },
        }
    }

    /// The user picked a file (or cancelled): the path replaces the one
    /// typed and the error is cleared.
    pub fn file_picked(&mut self, path: Option<String>)
        ensures
            match path {
                Some(p) => *final(self) == (EncodePanel {
                    file_path: p,
                    error_msg: None,
                    ..*old(self)
                }),
                None => *final(self) == *old(self),
            },
    {
        if let Some(p) = path {
            self.file_path = p;
            self.error_msg = None;
        }
    }

    /// The second half of generating from a file: `content` is what reading
    /// `file_path` gave (the bytes, or the error's text) and `name` the
    /// path's file name, if it has one. Encodes the bytes under that name
    /// (`unknown` without one), or records the read error.
    pub fn file_loaded(&mut self, content: Result<Vec<u8>, String>, name: Option<String>) -> (action:
        EncodeAction)
        ensures
            match content {
                Ok(bytes) => {
                    let filename = match name {
                        Some(n) => n@,
                        None => unknown_name(),
                    };
                    encode_outcome(
                        EncodePanel { error_msg: None, ..*old(self) },
                        bytes@,
                        filename,
                        *final(self),
                        action,
                    )
                },
                Err(e) => fails_with(*old(self), *final(self), msg_read_error(e@)) && action == EncodeAction::Nothing,
            },
    {
        self.error_msg = None;
        match content {
            Ok(bytes) => {
                let filename = match name {
                    Some(n) => n,
                    None => {
                        "unknown".to_owned()
                    },
                };
                self.encode_and_show(bytes, filename)
            },
            Err(e) => {
                let mut v = str_to_chars("ファイル読み込みエラー: ");
                append_str(&mut v, e.as_str());
                self.error_msg = Some(string_from_chars(&v));
                EncodeAction::Nothing
            },
        }
    }
}

/// The viewer scale that a setting asks for: its value as `str::parse::<u32>`
/// reads it, 2 when it is absent or unreadable, and at least 1.
pub open spec fn scale_setting_spec(value: Option<Seq<char>>) -> u32 {
    let parsed = match value {
        Some(v) => match parse_usize_spec(v) {
            Some(k) => if k <= u32::MAX {
                k as u32
            } else {
                2
            },
            None => 2,
        },
        None => 2,
    };
    if parsed == 0 {
        1
    } else {
        parsed
    }
}

/// Reads the viewer scale setting (see `scale_setting_spec`).
pub fn qr_scale_setting(value: Option<&str>) -> (r: u32)
    ensures
        r == scale_setting_spec(match value {
            Some(v) => Some(v@),
            None => None,
        }),
{
    let parsed: u32 = match value {
        Some(v) => {
            let cs = str_to_chars(v);
            match parse_usize(cs.as_slice()) {
                Some(k) => if k <= 0xffff_ffff {
                    k as u32
                } else {
                    2
                },
                None => 2,
            }
        },
        None => 2,
    };
    if parsed == 0 {
        1
    } else {
        parsed
    }
}

/// A message to the viewer never leaves a closed viewer behind: after it
/// the panel holds no viewer or an open one, `Close` drops the viewer, and
/// without a viewer nothing changes.
pub proof fn lemma_viewer_message(
    old: EncodePanel,
    m: QrWindowMessage,
    new: EncodePanel,
    action: EncodeAction,
)
    requires
        encode_step(old, EncodeMessage::QrWindow(m), new, action),
    ensures
        new.qr_window matches Some(w) ==> w.open,
        m == QrWindowMessage::Close ==> new.qr_window is None,
        old.qr_window is None ==> new == old && action == EncodeAction::Nothing,
{
    if let Some(w) = old.qr_window {
        lemma_close_only_closes(w.layout(), w.fragments@.len(), m);
    }
}

} // verus!
