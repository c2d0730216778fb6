use std::collections::HashMap;

use file2qr::app::{App, AppAction, Message, Tab};
use file2qr::decode::{self, extract_meta, parse_fragment_line, parse_lines, reconstruct, HashEntry};
use file2qr::encode::fragment::{draw_modules, generate_qr_image, scale_fits};
use file2qr::encode::{assemble_fragments, encode, EcLevel, EncodeInput};
use file2qr::ui::decode_panel::{
    DecodeAction, DecodeMessage, DecodePanel, FolderLocation, OutputDir, OutputLocation,
    WriteFailure,
};
use file2qr::ui::encode_panel::{
    qr_scale_setting, EncodeAction, EncodeMessage, EncodePanel, InputMode,
};
use file2qr::ui::qr_window::{QrRedraw, QrWindow, QrWindowMessage};

fn fragments_of(data: &[u8], filename: &str, compress: bool, ec_level: EcLevel) -> Vec<String> {
    encode(EncodeInput {
        data: data.to_vec(),
        filename: filename.to_string(),
        compress,
        ec_level,
    })
    .expect("encode failed")
    .fragments
}

fn joined_lines(fragments: &[String]) -> String {
    let mut content = String::new();
    for f in fragments {
        content.push_str(f);
        content.push('\n');
    }
    content
}

// ── The fragment format ─────────────────────────────────────────────────

#[test]
fn test_fragment_text_exact() {
    // <hash>:<index>:<count>:<name>:<flag>:<base64>, the hash being the first
    // four bytes of the SHA-256 of "<name>:<flag>:<base64>" in lowercase hex.
    let frags = fragments_of(b"Hello, World!", "test.txt", false, EcLevel::M);
    assert_eq!(frags, vec!["f2b98876:001:001:test%2Etxt::SGVsbG8sIFdvcmxkIQ==".to_string()]);
}

#[test]
fn test_fragment_percent_encoded_name() {
    let frags = fragments_of(b"x", "a b.txt", false, EcLevel::L);
    assert_eq!(frags, vec!["5afa4464:001:001:a%20b%2Etxt::eA==".to_string()]);
}

#[test]
fn test_fragment_count_and_indices() {
    // 10000 bytes give 13336 Base64 characters; with "large%2Edat::" that
    // is 13349, cut into chunks of 2318 at level M: 6 fragments.
    let frags = fragments_of(&b"X".repeat(10000), "large.dat", false, EcLevel::M);
    assert_eq!(frags.len(), 6);
    let hash = &frags[0][..8];
    for (i, f) in frags.iter().enumerate() {
        assert!(f.starts_with(&format!("{}:{:03}:", hash, i + 1)));
        assert!(f.len() <= EcLevel::M.max_bytes());
    }
    assert!(frags[0][13..].starts_with("006:large%2Edat::"));
}

#[test]
fn test_fragments_fit_each_level() {
    for &level in EcLevel::all() {
        let frags = fragments_of(&vec![7u8; 20000], "fit.bin", false, level);
        assert!(frags.len() > 1);
        for f in &frags {
            assert!(f.len() <= level.max_bytes());
        }
    }
}

#[test]
fn test_ec_level_values() {
    let all = EcLevel::all();
    assert_eq!(all, &[EcLevel::L, EcLevel::M, EcLevel::Q, EcLevel::H]);
    let bytes: Vec<usize> = all.iter().map(|l| l.max_bytes()).collect();
    assert_eq!(bytes, vec![2953, 2331, 1663, 1272]);
    let caps: Vec<usize> = all.iter().map(|l| l.qr_cap()).collect();
    assert_eq!(caps, vec![2940, 2318, 1650, 1259]);
    let labels: Vec<&str> = all.iter().map(|l| l.label()).collect();
    assert_eq!(labels, vec!["L", "M", "Q", "H"]);
}

// ── Parsing ─────────────────────────────────────────────────────────────

#[test]
fn test_parse_fragment_line_anywhere_in_line() {
    let f = parse_fragment_line("scan: abcd1234:002:data").expect("a fragment");
    assert_eq!(f.hash, "abcd1234");
    assert_eq!(f.index, 2);
    assert_eq!(f.chunk, "data");
    assert!(parse_fragment_line("abcd123g:002:data").is_none());
    assert!(parse_fragment_line("abcd1234:02:data").is_none());
}

#[test]
fn test_extract_meta_rejects() {
    assert!(extract_meta("abc:f.txt::x").is_none());
    assert!(extract_meta("001:f.txt:").is_none());
    // %FF decodes to a byte that is not UTF-8.
    assert!(extract_meta("001:%FF::x").is_none());
    assert_eq!(
        extract_meta("012:a%2Eb:other:rest:x"),
        Some((12, "a.b".to_string(), false))
    );
}

#[test]
fn test_missing_indices_exact() {
    let entries = parse_lines(&["abcdef12:001:005:f.txt::d", "abcdef12:004:x"]);
    let entry = entries.get("abcdef12").unwrap();
    assert_eq!(entry.missing_indices(), vec![2, 3, 5]);
    let entries = parse_lines(&["abcdef12:004:x"]);
    let entry = entries.get("abcdef12").unwrap();
    assert_eq!(entry.qr_num, None);
    assert!(entry.missing_indices().is_empty());
    assert!(!entry.is_complete());
}

#[test]
fn test_scan_order_does_not_matter() {
    let frags = fragments_of(&b"order".repeat(2000), "order.bin", false, EcLevel::H);
    assert!(frags.len() > 3);
    let forward: Vec<&str> = frags.iter().map(|s| s.as_str()).collect();
    let mut shuffled: Vec<&str> = forward.iter().rev().cloned().collect();
    shuffled.swap(0, 1);
    // Repeating a line changes nothing either.
    shuffled.push(forward[1]);
    let a = parse_lines(&forward);
    let b = parse_lines(&shuffled);
    let ea = a.values().next().unwrap();
    let eb = b.values().next().unwrap();
    assert_eq!(ea.hash, eb.hash);
    assert_eq!(ea.qr_num, eb.qr_num);
    assert_eq!(ea.filename, eb.filename);
    assert_eq!(ea.compressed, eb.compressed);
    assert_eq!(ea.fragments, eb.fragments);
    assert_eq!(reconstruct(eb).unwrap(), b"order".repeat(2000));
}

// ── Rebuilding: the errors ──────────────────────────────────────────────

#[test]
fn test_reconstruct_unknown_count() {
    let entries = parse_lines(&["abcd1234:002:data2"]);
    let entry = entries.values().next().unwrap();
    assert_eq!(reconstruct(entry), Err("QRコード数が不明".to_string()));
}

#[test]
fn test_reconstruct_missing_fragment() {
    let entries = parse_lines(&["abcd1234:001:003:f.txt::d", "abcd1234:003:x"]);
    let entry = entries.values().next().unwrap();
    assert_eq!(reconstruct(entry), Err("フラグメント 2 が不足しています".to_string()));
}

#[test]
fn test_reconstruct_format_error() {
    let mut fragments = HashMap::new();
    fragments.insert(1usize, "no separators".to_string());
    let entry = HashEntry {
        hash: "abcd1234".to_string(),
        qr_num: Some(1),
        filename: None,
        compressed: None,
        fragments,
    };
    assert_eq!(reconstruct(&entry), Err("フォーマットエラー".to_string()));
}

#[test]
fn test_reconstruct_decoder_errors() {
    let entries = parse_lines(&["abcd1234:001:001:f.txt::!!!!"]);
    let err = reconstruct(entries.values().next().unwrap()).unwrap_err();
    assert!(err.starts_with("Base64デコードエラー: "));
    assert!(err.len() > "Base64デコードエラー: ".len());
    // "YWJj" is the Base64 of "abc", which is no xz stream.
    let entries = parse_lines(&["abcd1234:001:001:f.txt:xv:YWJj"]);
    let entry = entries.values().next().unwrap();
    assert_eq!(entry.compressed, Some(true));
    let err = reconstruct(entry).unwrap_err();
    assert!(err.starts_with("xz解凍エラー: "));
    assert!(err.len() > "xz解凍エラー: ".len());
    let entries = parse_lines(&["abcd1234:001:001:f.txt::YWJj"]);
    assert_eq!(reconstruct(entries.values().next().unwrap()), Ok(b"abc".to_vec()));
}

#[test]
fn test_compressed_roundtrip_is_smaller() {
    let data = b"0123456789".repeat(3000);
    let plain = fragments_of(&data, "c.bin", false, EcLevel::L);
    let packed = fragments_of(&data, "c.bin", true, EcLevel::L);
    assert!(packed.len() < plain.len());
    assert!(packed[0].contains(":c%2Ebin:xv:"));
    let lines: Vec<&str> = packed.iter().map(|s| s.as_str()).collect();
    let entries = parse_lines(&lines);
    assert_eq!(reconstruct(entries.values().next().unwrap()).unwrap(), data);
}

// ── Drawing ─────────────────────────────────────────────────────────────

#[test]
fn test_generate_qr_image_layout() {
    let img = generate_qr_image("hello", EcLevel::L, 2).expect("a code");
    // Version 1: 21 modules, 4 of quiet zone on each side, 2 pixels each.
    assert_eq!(img.width, 58);
    assert_eq!(img.height, 58);
    assert_eq!(img.pixels.len(), 58 * 58);
    assert_eq!(img.pixels[0], 255);
    // The top-left finder pattern starts right after the quiet zone.
    assert_eq!(img.pixels[8 * 58 + 8], 0);
    assert_eq!(img.pixels[7 * 58 + 7], 255);
    assert!(img.pixels.iter().all(|&p| p == 0 || p == 255));
}

#[test]
fn test_generate_qr_image_too_long() {
    let text = "x".repeat(3000);
    match generate_qr_image(&text, EcLevel::L, 1) {
        Err(e) => assert!(e.starts_with("QRコード生成エラー: DataOverCapacity(")),
        Ok(_) => panic!("3000 bytes do not fit in version 40"),
    }
}

// ── The viewer ──────────────────────────────────────────────────────────

#[test]
fn test_viewer_next_then_prev() {
    let mut win = QrWindow::new(vec!["x".to_string(); 13], EcLevel::Q, 3);
    assert_eq!(win.scale, 3);
    assert_eq!(win.total_pages(), 3);
    assert_eq!(win.update(QrWindowMessage::NextPage), QrRedraw::Page);
    assert_eq!(win.update(QrWindowMessage::PrevPage), QrRedraw::Page);
    assert_eq!(win.page, 0);
    assert_eq!(win.update(QrWindowMessage::PrevPage), QrRedraw::Nothing);
    win.page = 2;
    assert_eq!(win.update(QrWindowMessage::NextPage), QrRedraw::Nothing);
    assert_eq!(win.page, 2);
    assert_eq!(win.page_range().collect::<Vec<_>>(), vec![12]);
}

#[test]
fn test_viewer_bounds() {
    let mut win = QrWindow::new_for_test(vec!["x".to_string()], EcLevel::L);
    for _ in 0..20 {
        assert_eq!(win.update(QrWindowMessage::ScaleInc), QrRedraw::All);
        assert!(win.scale <= 8);
    }
    assert_eq!(win.scale, 8);
    for _ in 0..20 {
        win.update(QrWindowMessage::ScaleDec);
        win.update(QrWindowMessage::RowsDec);
        win.update(QrWindowMessage::ColsDec);
    }
    assert_eq!((win.scale, win.rows, win.cols), (1, 1, 1));
    assert_eq!(win.update(QrWindowMessage::ScaleDec), QrRedraw::Nothing);
    assert_eq!(win.update(QrWindowMessage::RowsInc), QrRedraw::Page);
}

// ── The encoding panel ──────────────────────────────────────────────────

#[test]
fn test_encode_panel_messages() {
    let mut panel = EncodePanel::default();
    panel.update(EncodeMessage::FilePathChanged("   ".to_string()));
    assert!(matches!(panel.update(EncodeMessage::GeneratePressed), EncodeAction::Nothing));
    assert_eq!(panel.error_msg.as_deref(), Some("ファイルパスを指定してください"));

    panel.update(EncodeMessage::InputModeChanged(InputMode::DirectText));
    panel.update(EncodeMessage::DirectTextChanged("\u{3000}\t\n".to_string()));
    panel.update(EncodeMessage::GeneratePressed);
    assert_eq!(panel.error_msg.as_deref(), Some("テキストを入力してください"));
    assert!(panel.qr_window.is_none());

    assert!(matches!(panel.update(EncodeMessage::FilePickRequested), EncodeAction::PickFile));
    panel.file_picked(Some("/data/pick.bin".to_string()));
    assert_eq!(panel.file_path, "/data/pick.bin");
    assert!(panel.error_msg.is_none());
    panel.file_picked(None);
    assert_eq!(panel.file_path, "/data/pick.bin");
}

#[test]
fn test_encode_panel_read_error_message() {
    let mut panel = EncodePanel::default();
    panel.update(EncodeMessage::FilePathChanged("in.bin".to_string()));
    match panel.update(EncodeMessage::GeneratePressed) {
        EncodeAction::ReadFile(p) => assert_eq!(p, "in.bin"),
        _ => panic!("reading the file should be asked for"),
    }
    panel.file_loaded(Err("boom".to_string()), Some("in.bin".to_string()));
    assert_eq!(panel.error_msg.as_deref(), Some("ファイル読み込みエラー: boom"));
}

#[test]
fn test_encode_panel_file_name_recorded() {
    let mut panel = EncodePanel::default();
    panel.update(EncodeMessage::FilePathChanged("/x/y/report.pdf".to_string()));
    panel.update(EncodeMessage::CompressToggled(true));
    panel.update(EncodeMessage::EcLevelSelected(EcLevel::H));
    panel.update(EncodeMessage::GeneratePressed);
    let action = panel.file_loaded(Ok(b"pdf bytes".to_vec()), Some("report.pdf".to_string()));
    assert!(matches!(action, EncodeAction::Redraw(QrRedraw::All)));
    let w = panel.qr_window.as_ref().unwrap();
    assert_eq!(w.ec_level, EcLevel::H);
    let lines: Vec<&str> = w.fragments.iter().map(|s| s.as_str()).collect();
    let entries = parse_lines(&lines);
    let entry = entries.values().next().unwrap();
    assert_eq!(entry.filename.as_deref(), Some("report.pdf"));
    assert_eq!(entry.compressed, Some(true));
    assert_eq!(reconstruct(entry).unwrap(), b"pdf bytes".to_vec());

    // Without a file name the data is recorded as "unknown".
    panel.file_loaded(Ok(b"z".to_vec()), None);
    let w = panel.qr_window.as_ref().unwrap();
    assert!(w.fragments[0].contains(":unknown:xv:"));
}

#[test]
fn test_encode_panel_scale_and_viewer_messages() {
    let mut panel = EncodePanel::default();
    panel.qr_scale = 0;
    panel.update(EncodeMessage::InputModeChanged(InputMode::DirectText));
    panel.update(EncodeMessage::DirectTextChanged("B".repeat(9000)));
    panel.update(EncodeMessage::GeneratePressed);
    assert_eq!(panel.qr_window.as_ref().unwrap().scale, 1);
    let action = panel.update(EncodeMessage::QrWindow(QrWindowMessage::ScaleInc));
    assert!(matches!(action, EncodeAction::Redraw(QrRedraw::All)));
    assert_eq!(panel.qr_window.as_ref().unwrap().scale, 2);
    let action = panel.update(EncodeMessage::QrWindow(QrWindowMessage::Close));
    assert!(matches!(action, EncodeAction::Nothing));
    assert!(panel.qr_window.is_none());
    // A message for a closed viewer changes nothing.
    let action = panel.update(EncodeMessage::QrWindow(QrWindowMessage::NextPage));
    assert!(matches!(action, EncodeAction::Nothing));
}

// ── The decoding panel ──────────────────────────────────────────────────

fn load(panel: &mut DecodePanel, path: &str, content: String) {
    let action = panel.update(DecodeMessage::FileDropped(path.to_string()));
    assert!(matches!(action, DecodeAction::ReadFiles(_)));
    let mut contents = Vec::new();
    for p in &panel.input_files {
        if p == path {
            contents.push(Ok(content.clone()));
        } else {
            contents.push(Err("gone".to_string()));
        }
    }
    panel.files_loaded(contents);
}

#[test]
fn test_typed_text_comes_back() {
    let text = "こんにちは、QR!\n二行目";
    let mut enc = EncodePanel::default();
    enc.update(EncodeMessage::InputModeChanged(InputMode::DirectText));
    enc.update(EncodeMessage::DirectTextChanged(text.to_string()));
    enc.update(EncodeMessage::GeneratePressed);
    let frags = enc.qr_window.as_ref().unwrap().fragments.clone();

    let mut dec = DecodePanel::default();
    load(&mut dec, "scan.txt", joined_lines(&frags));
    let hash = frags[0][..8].to_string();
    dec.update(DecodeMessage::HashToggled(hash, true));
    match dec.update(DecodeMessage::DecodePressed) {
        DecodeAction::WriteFiles(reqs) => assert!(reqs.is_empty()),
        _ => panic!("restoring should report its writes"),
    }
    dec.writes_done(Vec::new());
    assert_eq!(dec.decoded_text.as_deref(), Some(text));
    assert_eq!(dec.status_msg.as_deref(), Some("テキストを復元しました"));
    assert!(dec.error_msg.is_none());
}

#[test]
fn test_file_comes_back_beside_input() {
    let data: Vec<u8> = (0..=255u8).cycle().take(5000).collect();
    let frags = fragments_of(&data, "data.bin", true, EcLevel::Q);
    let mut dec = DecodePanel::default();
    load(&mut dec, "/in/frags.txt", joined_lines(&frags));
    dec.update(DecodeMessage::HashToggled(frags[0][..8].to_string(), true));
    match dec.update(DecodeMessage::DecodePressed) {
        DecodeAction::WriteFiles(reqs) => {
            assert_eq!(reqs.len(), 1);
            assert_eq!(
                reqs[0].location,
                OutputLocation::BesideFile("/in/frags.txt".to_string(), "data.bin".to_string())
            );
            assert_eq!(reqs[0].data, data);
        }
        _ => panic!("restoring should report its writes"),
    }
    dec.writes_done(vec![Ok(())]);
    assert_eq!(dec.status_msg.as_deref(), Some("1件のファイルを復元しました"));
    assert!(dec.decoded_text.is_none());
}

#[test]
fn test_decode_errors() {
    let good = fragments_of(b"good", "good.txt", false, EcLevel::L);
    let bad_text = fragments_of(&[0xff, 0xfe], "(direct_text)", false, EcLevel::L);
    let mut content = joined_lines(&good);
    content.push_str(&joined_lines(&bad_text));
    content.push_str("abcd1234:001:003:part.txt::d\n");
    let mut dec = DecodePanel::default();
    dec.update(DecodeMessage::OutputDirChanged(OutputDir::Custom("/out".to_string())));
    load(&mut dec, "all.txt", content);
    assert_eq!(dec.entries.len(), 3);

    dec.update(DecodeMessage::HashToggled(good[0][..8].to_string(), true));
    dec.update(DecodeMessage::HashToggled("abcd1234".to_string(), true));
    dec.update(DecodeMessage::HashToggled("ffffffff".to_string(), true));
    match dec.update(DecodeMessage::DecodePressed) {
        DecodeAction::WriteFiles(reqs) => {
            assert_eq!(reqs.len(), 1);
            assert_eq!(
                reqs[0].location,
                OutputLocation::InDir("/out".to_string(), "good.txt".to_string())
            );
        }
        _ => panic!("restoring should report its writes"),
    }
    dec.writes_done(vec![Err(WriteFailure {
        shown_path: "/out/good.txt".to_string(),
        error: "denied".to_string(),
    })]);
    assert_eq!(
        dec.error_msg.as_deref(),
        Some("復元エラー (abcd1234): フラグメント 2 が不足しています")
    );
    assert!(dec.status_msg.is_none());

    // Writing fails after the failed entry: the write error is the last one.
    dec.update(DecodeMessage::HashToggled("abcd1234".to_string(), false));
    dec.update(DecodeMessage::HashToggled(good[0][..8].to_string(), false));
    dec.update(DecodeMessage::HashToggled("abcd1234".to_string(), true));
    dec.update(DecodeMessage::HashToggled(good[0][..8].to_string(), true));
    dec.update(DecodeMessage::DecodePressed);
    dec.writes_done(vec![Err(WriteFailure {
        shown_path: "/out/good.txt".to_string(),
        error: "denied".to_string(),
    })]);
    assert_eq!(dec.error_msg.as_deref(), Some("ファイル書き込みエラー (/out/good.txt): denied"));

    // Text that is not UTF-8.
    dec.update(DecodeMessage::HashToggled("abcd1234".to_string(), false));
    dec.update(DecodeMessage::HashToggled(good[0][..8].to_string(), false));
    dec.update(DecodeMessage::HashToggled(bad_text[0][..8].to_string(), true));
    dec.update(DecodeMessage::DecodePressed);
    dec.writes_done(Vec::new());
    assert!(dec.error_msg.as_deref().unwrap().starts_with("UTF-8変換エラー: "));
    assert!(dec.decoded_text.is_none());
}

#[test]
fn test_decode_nothing_found() {
    let mut dec = DecodePanel::default();
    dec.update(DecodeMessage::HashToggled("12345678".to_string(), true));
    dec.update(DecodeMessage::DecodePressed);
    dec.writes_done(Vec::new());
    assert_eq!(dec.status_msg.as_deref(), Some("0件のファイルを復元しました"));
}

#[test]
fn test_decode_panel_read_errors() {
    let mut dec = DecodePanel::default();
    dec.update(DecodeMessage::FileDropped("a.txt".to_string()));
    dec.update(DecodeMessage::FileDropped("b.txt".to_string()));
    dec.files_loaded(vec![
        Err("nope".to_string()),
        Ok("abcd1234:001:001:f.txt::YWJj\n".to_string()),
    ]);
    assert_eq!(dec.error_msg.as_deref(), Some("ファイル読み込みエラー (a.txt): nope"));
    assert_eq!(dec.entries.len(), 1);
    dec.files_loaded(vec![Ok(String::new()), Ok(String::new())]);
    assert!(dec.error_msg.is_none());
    assert!(dec.entries.is_empty());
}

#[test]
fn test_decode_panel_adding_files() {
    let mut dec = DecodePanel::default();
    dec.update(DecodeMessage::FilePathInputChanged(String::new()));
    assert!(matches!(dec.update(DecodeMessage::AddFilePressed), DecodeAction::Nothing));
    dec.update(DecodeMessage::FilePathInputChanged("x.txt".to_string()));
    assert!(matches!(dec.update(DecodeMessage::AddFilePressed), DecodeAction::ReadFiles(_)));
    assert_eq!(dec.file_path_input, "");
    assert!(matches!(dec.update(DecodeMessage::FilePickRequested), DecodeAction::PickFiles));
    let action = dec.files_picked(vec![
        "y.txt".to_string(),
        String::new(),
        "x.txt".to_string(),
        "y.txt".to_string(),
    ]);
    match action {
        DecodeAction::ReadFiles(paths) => assert_eq!(paths, vec!["x.txt", "y.txt"]),
        _ => panic!("the input files should be read again"),
    }
    assert!(matches!(dec.files_picked(vec!["x.txt".to_string()]), DecodeAction::Nothing));
    assert!(matches!(dec.update(DecodeMessage::CustomDirPickRequested), DecodeAction::PickFolder));
    dec.folder_picked(Some("/picked".to_string()));
    assert_eq!(dec.custom_dir, "/picked");
    assert_eq!(dec.output_dir, OutputDir::Custom("/picked".to_string()));
    dec.folder_picked(None);
    assert_eq!(dec.custom_dir, "/picked");
}

#[test]
fn test_decode_panel_output_folder() {
    let mut dec = DecodePanel::default();
    let open = |dec: &mut DecodePanel| match dec.update(DecodeMessage::OpenFolderPressed) {
        DecodeAction::OpenFolder(f) => f,
        _ => panic!("a folder should be opened"),
    };
    assert_eq!(open(&mut dec), FolderLocation::Dir(".".to_string()));
    dec.update(DecodeMessage::FileDropped("/a/b.txt".to_string()));
    assert_eq!(open(&mut dec), FolderLocation::ParentOf("/a/b.txt".to_string()));
    dec.update(DecodeMessage::OutputDirChanged(OutputDir::Downloads));
    assert_eq!(open(&mut dec), FolderLocation::Downloads);
    assert_eq!(dec.resolve_output_path("r.bin"), OutputLocation::InDownloads("r.bin".to_string()));
    dec.update(DecodeMessage::OutputDirChanged(OutputDir::CurrentDir));
    assert_eq!(open(&mut dec), FolderLocation::CurrentDir);
    dec.update(DecodeMessage::CustomDirChanged("/c".to_string()));
    assert_eq!(open(&mut dec), FolderLocation::Dir("/c".to_string()));
}

#[test]
fn test_hash_selection_keeps_one_copy() {
    let mut dec = DecodePanel::default();
    dec.update(DecodeMessage::HashToggled("h1".to_string(), true));
    dec.update(DecodeMessage::HashToggled("h1".to_string(), true));
    dec.update(DecodeMessage::HashToggled("h2".to_string(), true));
    assert_eq!(dec.selected_hashes.len(), 2);
    dec.update(DecodeMessage::HashToggled("h1".to_string(), false));
    assert_eq!(dec.selected_hashes.len(), 1);
    assert!(!dec.selected_hashes.contains("h1"));
    assert!(dec.selected_hashes.contains("h2"));
}

// ── The application ─────────────────────────────────────────────────────

#[test]
fn test_app_routing() {
    let mut app = App::default();
    assert_eq!(app.current_tab, Tab::Encode);
    let action = app.update(Message::FileDropped(vec!["a.bin".to_string(), "b.bin".to_string()]));
    assert!(matches!(action, AppAction::Nothing));
    assert_eq!(app.encode_panel.file_path, "b.bin");

    app.update(Message::TabSelected(Tab::Decode));
    assert_eq!(app.current_tab, Tab::Decode);
    let action = app.update(Message::FileDropped(vec!["a.txt".to_string(), "b.txt".to_string()]));
    assert!(matches!(action, AppAction::Decode(DecodeAction::ReadFiles(_))));
    assert_eq!(app.decode_panel.input_files, vec!["a.txt", "b.txt"]);

    let action = app.update(Message::Encode(EncodeMessage::CompressToggled(true)));
    assert!(matches!(action, AppAction::Encode(EncodeAction::Nothing)));
    assert!(app.encode_panel.compress);
    let action = app.update(Message::Decode(DecodeMessage::RemoveFile(0)));
    assert!(matches!(action, AppAction::Decode(DecodeAction::ReadFiles(_))));
    assert_eq!(app.decode_panel.input_files, vec!["b.txt"]);
}

#[test]
fn test_extract_lines_line_endings() {
    let lines = decode::fragment::extract_lines("a\r\nb\n\nc");
    assert_eq!(lines, vec!["a", "b", "", "c"]);
    assert!(decode::fragment::extract_lines("").is_empty());
    assert_eq!(decode::fragment::extract_lines("x\n"), vec!["x"]);
}

// ── The parts after the outside calls ───────────────────────────────────

#[test]
fn test_assemble_fragments() {
    let frags = assemble_fragments("a%2Eb", true, "QUJD", "0123abcd", EcLevel::L);
    assert_eq!(frags, vec!["0123abcd:001:001:a%2Eb:xv:QUJD".to_string()]);

    // "n::" and 2940 characters of Base64 make 2943: two chunks of 2940.
    let b64 = "A".repeat(2940);
    let frags = assemble_fragments("n", false, &b64, "0123abcd", EcLevel::L);
    assert_eq!(frags.len(), 2);
    assert_eq!(frags[0].len(), 13 + 2940);
    assert!(frags[0].starts_with("0123abcd:001:002:n::AAA"));
    assert_eq!(frags[1], "0123abcd:002:AAAAAAA");
}

#[test]
fn test_count_includes_header() {
    // "n::" and 2937 characters make exactly 2940, one chunk's worth; with
    // the "NNN:" header in front the text needs two chunks, and nothing is
    // cut off.
    let b64 = "B".repeat(2937);
    let frags = assemble_fragments("n", false, &b64, "0123abcd", EcLevel::L);
    assert_eq!(frags.len(), 2);
    assert_eq!(frags[0], format!("0123abcd:001:002:n::{}", "B".repeat(2933)));
    assert_eq!(frags[1], "0123abcd:002:BBBB");
}

#[test]
fn test_payload_of() {
    let entries = parse_lines(&["abcd1234:002:YWJj", "abcd1234:001:002:f.txt::QUJD"]);
    let entry = entries.values().next().unwrap();
    assert_eq!(decode::payload_of(entry), Ok("QUJDYWJj".to_string()));
    let entries = parse_lines(&["abcd1234:001:002:f.txt::QUJD"]);
    let entry = entries.values().next().unwrap();
    assert_eq!(
        decode::payload_of(entry),
        Err("フラグメント 2 が不足しています".to_string())
    );
}

#[test]
fn test_draw_modules() {
    let img = draw_modules(&vec![vec![true]], 1);
    assert_eq!((img.width, img.height), (9, 9));
    for y in 0..9 {
        for x in 0..9 {
            let want = if x == 4 && y == 4 { 0 } else { 255 };
            assert_eq!(img.pixels[y * 9 + x], want);
        }
    }
    let img = draw_modules(&vec![vec![false, true], vec![true, false]], 2);
    assert_eq!(img.width, 20);
    assert_eq!(img.pixels[8 * 20 + 8], 255);
    assert_eq!(img.pixels[8 * 20 + 10], 0);
    assert_eq!(img.pixels[11 * 20 + 9], 0);
}

#[test]
fn test_roundtrip_at_exact_capacity() {
    // "ab::" and the 2936 Base64 characters of 2202 bytes fill exactly one
    // chunk at level L; the "NNN:" header makes it two, and the data comes
    // back whole.
    let data: Vec<u8> = (0..2202u32).map(|i| (i % 251) as u8).collect();
    let frags = fragments_of(&data, "ab", false, EcLevel::L);
    assert_eq!(frags.len(), 2);
    let lines: Vec<&str> = frags.iter().map(|s| s.as_str()).collect();
    let entries = parse_lines(&lines);
    assert_eq!(reconstruct(entries.values().next().unwrap()).unwrap(), data);

    // 942 bytes named "a" at level H: 1256 Base64 characters, 1259 with
    // "a::", exactly the capacity.
    let data: Vec<u8> = (0..942u32).map(|i| (i * 7 % 256) as u8).collect();
    let frags = fragments_of(&data, "a", false, EcLevel::H);
    assert_eq!(frags.len(), 2);
    assert_eq!(frags[1].len(), 13 + 4);
    let lines: Vec<&str> = frags.iter().map(|s| s.as_str()).collect();
    let entries = parse_lines(&lines);
    assert_eq!(reconstruct(entries.values().next().unwrap()).unwrap(), data);
}

#[test]
fn test_viewer_accepts() {
    let mut win = QrWindow::new_for_test(vec!["x".to_string(); 3], EcLevel::L);
    assert!(win.accepts(QrWindowMessage::NextPage));
    win.cols = 0;
    assert!(!win.accepts(QrWindowMessage::NextPage));
    win.cols = usize::MAX;
    win.rows = 2;
    assert!(!win.accepts(QrWindowMessage::NextPage));
    assert!(!win.accepts(QrWindowMessage::ColsInc));
    assert!(win.accepts(QrWindowMessage::RowsInc));
    win.scale = u32::MAX;
    assert!(!win.accepts(QrWindowMessage::ScaleInc));
    assert!(win.accepts(QrWindowMessage::ScaleDec));
}

#[test]
fn test_scale_fits() {
    assert!(scale_fits(1));
    assert!(scale_fits(8));
    assert!(!scale_fits(23_216_040));
    assert!(!scale_fits(u32::MAX));
    if usize::BITS == 64 {
        assert!(scale_fits(23_216_039));
    }
}

// ── What the window shows ───────────────────────────────────────────────

#[test]
fn test_entries_in_hash_order() {
    let lines = [
        "ffff0000:001:001:c.txt::YQ==",
        "0000aaaa:001:001:a.txt::Yg==",
        "a0a0a0a0:001:001:b.txt::Yw==",
        "0000AAAA:001:001:d.txt::ZA==",
    ];
    let entries = parse_lines(&lines);
    let all: Vec<&HashEntry> = entries.values().collect();
    let order = entries.order_by_hash();
    let hashes: Vec<&str> = order.iter().map(|&i| all[i].hash.as_str()).collect();
    assert_eq!(hashes, vec!["0000AAAA", "0000aaaa", "a0a0a0a0", "ffff0000"]);
    assert!(parse_lines(&[]).order_by_hash().is_empty());
}

#[test]
fn test_decode_button_and_open_folder() {
    let mut dec = DecodePanel::default();
    assert!(!dec.can_decode());
    dec.update(DecodeMessage::HashToggled("12345678".to_string(), true));
    assert!(dec.can_decode());
    assert!(!dec.offers_open_folder());
    dec.status_msg = Some("2件のファイルを復元しました".to_string());
    assert!(dec.offers_open_folder());
    dec.status_msg = Some("テキストを復元しました".to_string());
    assert!(!dec.offers_open_folder());
}

#[test]
fn test_qr_scale_setting() {
    assert_eq!(qr_scale_setting(None), 2);
    assert_eq!(qr_scale_setting(Some("5")), 5);
    assert_eq!(qr_scale_setting(Some("+7")), 7);
    assert_eq!(qr_scale_setting(Some("0")), 1);
    assert_eq!(qr_scale_setting(Some("x")), 2);
    assert_eq!(qr_scale_setting(Some("")), 2);
    assert_eq!(qr_scale_setting(Some(" 3")), 2);
    assert_eq!(qr_scale_setting(Some("4294967295")), 4294967295);
    assert_eq!(qr_scale_setting(Some("4294967296")), 2);
}
