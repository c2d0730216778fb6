//! The application's state: two tabs, one panel each, and the routing of
//! messages to them. Files dropped on the window go to the panel of the
//! current tab.
use vstd::prelude::*;

use crate::encode::EcLevel;
use crate::ui::decode_panel::{
    after_adding, decode_step, views, DecodeAction, DecodeMessage, DecodePanel, OutputDir,
};
use crate::ui::encode_panel::{self, encode_step, EncodeAction, EncodeMessage, EncodePanel};

verus! {

/// The two tabs.
#[derive(Debug, Clone, Copy, PartialEq, Eq, Structural)]
pub enum Tab {
    Encode,
    Decode,
}

/// What the user did in the window.
#[derive(Debug, Clone)]
pub enum Message {
    TabSelected(Tab),
    Encode(EncodeMessage),
    Decode(DecodeMessage),
    /// Files dropped on the window, by path.
    FileDropped(Vec<String>),
}

/// What the caller must do after a message: the action of the panel that
/// took it.
pub enum AppAction {
    Nothing,
    Encode(EncodeAction),
    Decode(DecodeAction),
}

pub struct App {
    pub current_tab: Tab,
    pub encode_panel: EncodePanel,
    pub decode_panel: DecodePanel,
}

impl Default for App {
    fn default() -> (r: Self)
        ensures
            r.current_tab == Tab::Encode,
            r.encode_panel.input_mode == encode_panel::InputMode::File,
            r.encode_panel.file_path@ == Seq::<char>::empty(),
            r.encode_panel.direct_text@ == Seq::<char>::empty(),
            !r.encode_panel.compress,
            r.encode_panel.ec_level == EcLevel::L,
            r.encode_panel.qr_window is None,
            r.encode_panel.error_msg is None,
            r.encode_panel.qr_scale == 2,
            r.decode_panel.input_files@.len() == 0,
            r.decode_panel.file_path_input@ == Seq::<char>::empty(),
            r.decode_panel.entries@.len() == 0,
            r.decode_panel.selected_hashes@.len() == 0,
            r.decode_panel.output_dir == OutputDir::SameAsInput,
            r.decode_panel.custom_dir@ == Seq::<char>::empty(),
            r.decode_panel.decoded_text is None,
            r.decode_panel.status_msg is None,
            r.decode_panel.error_msg is None,
            r.decode_panel.pending_steps().len() == 0,
    {
        App {
            current_tab: Tab::Encode,
            encode_panel: EncodePanel::default(),
            decode_panel: DecodePanel::default(),
        }
    }
}

/// What `update` needs to run without overflow (see the encoding panel).
pub open spec fn app_can_handle(a: App, msg: Message) -> bool {
    match msg {
        Message::Encode(m) => encode_panel::can_handle(a.encode_panel, m),
        _ => true,
    }
}

impl App {
    /// Routes a message: a tab choice switches the tab; a panel's message
    /// goes to that panel; dropped files go to the panel of the current tab
    /// (the encoding panel keeps the last path, the decoding panel adds each).
    pub fn update(&mut self, message: Message) -> (action: AppAction)
        requires
            app_can_handle(*old(self), message),
        ensures
            match message {
                Message::TabSelected(t) => *final(self) == (App { current_tab: t, ..*old(self) })
                    && action is Nothing,
                Message::Encode(m) => {
                    &&& *final(self) == (App { encode_panel: final(self).encode_panel, ..*old(self) })
                    &&& action matches AppAction::Encode(a) && encode_step(
                        old(self).encode_panel,
                        m,
                        final(self).encode_panel,
                        a,
                    )
                },
                Message::Decode(m) => {
                    &&& *final(self) == (App { decode_panel: final(self).decode_panel, ..*old(self) })
                    &&& action matches AppAction::Decode(a) && decode_step(
                        old(self).decode_panel,
                        m,
                        final(self).decode_panel,
                        a,
                    )
                },
                Message::FileDropped(paths) => match old(self).current_tab {
                    Tab::Encode => {
                        &&& *final(self) == (App { encode_panel: final(self).encode_panel, ..*old(self) })
                        &&& if paths@.len() == 0 {
                            final(self).encode_panel == old(self).encode_panel
                        } else {
                            final(self).encode_panel == (EncodePanel {
                                file_path: paths@.last(),
                                error_msg: None,
                                ..old(self).encode_panel
                            })
                        }
                        &&& action is Nothing
                    },
                    Tab::Decode => {
                        &&& *final(self) == (App { decode_panel: final(self).decode_panel, ..*old(self) })
                        &&& action matches AppAction::Decode(a) && after_adding(
                            old(self).decode_panel,
                            views(paths@),
                            final(self).decode_panel,
                            a,
                        )
                    },
                },
            },
    {
        match message {
            Message::TabSelected(t) => {
                self.current_tab = t;
                AppAction::Nothing
            },
            Message::Encode(m) => AppAction::Encode(self.encode_panel.update(m)),
            Message::Decode(m) => AppAction::Decode(self.decode_panel.update(m)),
            Message::FileDropped(paths) => match self.current_tab {
                Tab::Encode => {
                    let n = paths.len();
                    if n > 0 {
                        let p = paths[n - 1].clone();
                        self.encode_panel.update(EncodeMessage::FileDropped(p));
                    }
                    AppAction::Nothing
                },
                Tab::Decode => AppAction::Decode(self.decode_panel.files_picked(paths)),
            },
        }
    }
}

} // verus!
