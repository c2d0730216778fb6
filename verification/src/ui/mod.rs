pub mod qr_window;
pub mod encode_panel;
pub mod decode_panel;
