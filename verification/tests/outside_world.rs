//! Updates, browser, history, notifications, window.

use mdm::engine::{Download, Job, Seg, Status};
use mdm::history::{appended_text, ends_a_line, lines, now_epoch, path as history_path, pruned_text, recent, Entry, KEEP};
use mdm::host::{answer, answer_to, frame, is_host_call, judge_answer, may_start_app, message_len};
use mdm::names::FilePath;
use mdm::notify::{finished, register};
use mdm::server::{parse_request, reply, Request, PORT};
use mdm::taskbar::{TBPF_NOPROGRESS, TBPF_NORMAL};
use mdm::ui::{activity_label, update_label, buttons, fmt_bytes, fmt_eta, folder_setting, gauge, icon_rgba, list_title, log_tone, mark, row_info, Gauge, Mark, Tone};
use mdm::update::{current_version, is_later, judge_release, parse_ver, read_release, to_hex, update_script, verify_installer, waits_for_pause, VERSION};

#[test]
fn script_quotes_paths_with_spaces() {
    let s = update_script(
        r"C:\Users\a b\AppData\Local\Temp\mdm-setup.exe",
        r"C:\Program Files\MDM\mdm.exe",
    );
    // plain quotes: inside a script nothing is escaped
    assert!(s.contains("\"C:\\Users\\a b\\AppData\\Local\\Temp\\mdm-setup.exe\" /VERYSILENT"));
    assert!(s.contains("\"C:\\Program Files\\MDM\\mdm.exe\""));
    assert!(!s.contains("\\\""), "nothing is escaped in the script");
    // neither works without a console
    assert!(!s.contains("start "), "start does not work without a console");
    assert!(!s.contains("timeout "), "timeout needs a console");
    assert!(s.starts_with("@echo off"));
}

#[test]
fn versions() {
    assert_eq!(parse_ver("v1.2.3"), Some((1, 2, 3)));
    assert_eq!(parse_ver("0.10.0"), Some((0, 10, 0)));
    assert_eq!(parse_ver("boh"), None);
    assert!(parse_ver("v0.4.0") < parse_ver("v0.10.0")); // as numbers, not as text
    assert!(parse_ver(VERSION).is_some());
    assert_eq!(current_version(), (0, 10, 0));
    assert_eq!(parse_ver(" vv1.2.3.4\n"), Some((1, 2, 3)));
    assert_eq!(parse_ver("1.2"), None);
    assert_eq!(parse_ver("1.2.x"), None);
    assert!(is_later((0, 10, 0), (0, 4, 9)));
    assert!(!is_later((0, 10, 0), (0, 10, 0)));
}

fn release(raw: &str) -> mdm::update::Release {
    read_release(&raw.as_bytes().to_vec()).expect("json")
}

#[test]
fn newer_releases_are_offered() {
    let raw = r#"{"tag_name":"v9.1.0","assets":[
        {"name":"mdm-windows.zip","browser_download_url":"https://x/zip"},
        {"name":"mdm-setup.exe","browser_download_url":"https://x/setup","digest":"sha256:AB12"}]}"#;
    let info = judge_release(&release(raw), (0, 10, 0)).unwrap().unwrap();
    assert_eq!(info.version, "v9.1.0");
    assert_eq!(info.url, "https://x/setup");
    assert_eq!(info.sha256.as_deref(), Some("ab12"));
    // no later than this one
    assert!(judge_release(&release(raw), (9, 1, 0)).unwrap().is_none());
    assert!(judge_release(&release(raw), (10, 0, 0)).unwrap().is_none());
}

#[test]
fn broken_releases_are_refused() {
    let why = |raw: &str| judge_release(&release(raw), (0, 1, 0)).unwrap_err();
    assert_eq!(why("{}"), "tag non semver");
    assert_eq!(why(r#"{"tag_name":7}"#), "tag non semver");
    assert_eq!(why(r#"{"tag_name":"v1.0.0"}"#), "release senza mdm-setup.exe");
    assert_eq!(why(r#"{"tag_name":"v1.0.0","assets":[{"name":"x"},{}]}"#), "release senza mdm-setup.exe");
    assert_eq!(why(r#"{"tag_name":"v1.0.0","assets":[{"name":"mdm-setup.exe"}]}"#), "asset senza url");
    assert!(read_release(&b"{".to_vec()).is_none());
    let raw = r#"{"tag_name":"v1.0.0","assets":[{"name":"mdm-setup.exe","browser_download_url":"u","digest":"md5:1"}]}"#;
    assert!(judge_release(&release(raw), (0, 1, 0)).unwrap().unwrap().sha256.is_none());
}

#[test]
fn installers_are_verified() {
    let want = "ba7816bf8f01cfea414140de5dae2223b00361a396177a9cb410ff61f20015ad";
    assert!(verify_installer(&b"abc".to_vec(), want).is_none());
    let e = verify_installer(&b"abd".to_vec(), want).unwrap();
    assert!(e.starts_with(&format!("sha256 non corrisponde: atteso {want}, ottenuto a52d159f")));
    assert_eq!(to_hex(&vec![0, 15, 16, 255]), "000f10ff");
}

#[test]
fn updates_wait_for_downloads() {
    assert!(waits_for_pause(1, 99));
    assert!(!waits_for_pause(1, 100));
    assert!(!waits_for_pause(0, 0));
}

#[test]
fn messages_have_a_length() {
    assert_eq!(message_len([0, 0, 0, 0]), None);
    assert_eq!(message_len([1, 2, 0, 0]), Some(513));
    assert_eq!(message_len([0, 0, 16, 0]), Some(1 << 20));
    assert_eq!(message_len([1, 0, 16, 0]), None);
    assert_eq!(message_len([255, 255, 255, 255]), None);
}

#[test]
fn answers_are_framed() {
    let a = answer(None);
    assert_eq!(a, r#"{"ok":true}"#);
    let f = frame(&a);
    assert_eq!(f[..4], [11, 0, 0, 0]);
    assert_eq!(&f[4..], a.as_bytes());
    assert_eq!(message_len([f[0], f[1], f[2], f[3]]), Some(11));
    assert_eq!(answer(Some(r#"no "app""#.to_string())), r#"{"ok":false,"error":"no 'app'"}"#);
    assert_eq!(frame("è").len(), 6);
}

#[test]
fn answers_of_the_app_are_judged() {
    assert!(judge_answer("{\"ok\":true}\n").is_none());
    assert_eq!(judge_answer("boh").unwrap(), "risposta app inattesa: boh");
    // the browser learns the size that the settings say
    let line = reply(Request::Config, false, 25);
    assert_eq!(answer_to(Request::Config, &line), r#"{"ok":true,"sizeThresholdMb":25}"#);
    assert_eq!(answer_to(Request::Job, &reply(Request::Job, true, 25)), r#"{"ok":true}"#);
    assert_eq!(answer_to(Request::Config, "boh"), r#"{"ok":false,"error":"risposta app inattesa: boh"}"#);
}

#[test]
fn the_browser_is_recognised() {
    let args = |v: &[&str]| v.iter().map(|s| s.to_string()).collect::<Vec<String>>();
    assert!(is_host_call(&args(&["mdm", "chrome-extension://abc/"])));
    assert!(is_host_call(&args(&["mdm", "--host"])));
    assert!(!is_host_call(&args(&["mdm", "--hosts", "x chrome-extension://"])));
    assert!(!is_host_call(&args(&[])));
}

#[test]
fn requests_are_told_apart() {
    let r = |s: &str| parse_request(&s.as_bytes().to_vec());
    assert_eq!(r(r#"{"url":"https://x/y"}"#), Request::Job);
    assert_eq!(r(r#"{"url":null,"cmd":"config"}"#), Request::Job);
    assert_eq!(r("{\"cmd\":\"resume_all\"}\n"), Request::ResumeAll);
    assert_eq!(r(r#"{"cmd":"config"}"#), Request::Config);
    assert_eq!(r(r#"{"cmd":1}"#), Request::Unknown);
    assert_eq!(r(r#"["url"]"#), Request::Unknown);
    assert_eq!(r("non json"), Request::Unknown);
    assert_eq!(PORT, 48666);
    // a question about the settings never starts the program
    assert!(!may_start_app(&br#"{"cmd":"config"}"#.to_vec()));
    assert!(may_start_app(&br#"{"url":"u"}"#.to_vec()));
}

#[test]
fn requests_are_answered() {
    assert_eq!(reply(Request::Job, true, 10), "{\"ok\":true}\n");
    assert_eq!(reply(Request::Job, false, 10), "{\"ok\":false}\n");
    assert_eq!(reply(Request::ResumeAll, false, 10), "{\"ok\":true}\n");
    assert_eq!(reply(Request::Config, false, 10), "{\"ok\":true,\"sizeThresholdMb\":10}\n");
    assert_eq!(reply(Request::Unknown, true, 10), "{\"ok\":false}\n");
}

fn entry(name: &str) -> Entry {
    Entry {
        name: name.to_string(),
        url: format!("https://x.it/{name}"),
        path: FilePath::new("/d", name),
        bytes: 123,
        secs: 4,
        at: 1_700_000_000,
        ok: true,
    }
}

fn read_entry(line: &str) -> Option<Entry> {
    let v: serde_json::Value = serde_json::from_str(line).ok()?;
    Some(entry(v.get("name")?.as_str()?))
}

#[test]
fn broken_lines_are_skipped_not_fatal() {
    // a crash in the middle of the last line
    let raw = format!("{}\n{{\"name\":\"tron", "{\"name\":\"ok.zip\"}");
    let parsed = recent(lines(&raw.into_bytes()).iter().map(|l| read_entry(l)).collect());
    assert_eq!(parsed.len(), 1);
    assert_eq!(parsed[0].name, "ok.zip");
}

#[test]
fn history_shows_the_newest_first() {
    let parsed: Vec<Option<Entry>> = (0..250).map(|i| if i == 249 { None } else { Some(entry(&format!("{i}"))) }).collect();
    let shown = recent(parsed);
    assert_eq!(shown.len(), KEEP);
    assert_eq!(shown[0].name, "248");
    assert_eq!(shown[199].name, "49");
}

#[test]
fn rewriting_the_history_keeps_it() {
    let shown = vec![Some("nuova".to_string()), None, Some("vecchia".to_string())];
    let raw = pruned_text(&shown);
    assert_eq!(raw, b"vecchia\nnuova\n");
    assert_eq!(lines(&raw), vec!["vecchia", "nuova"]);
    assert_eq!(lines(&b"a\r\n\nb\r".to_vec()), vec!["a", "", "b\r"]);
    assert_eq!(lines(&Vec::new()), Vec::<String>::new());
}

#[test]
fn a_torn_line_costs_no_other() {
    let torn = "{\"name\":\"ok.zip\"}\n{\"name\":\"tron".to_string();
    let mut raw = torn.into_bytes();
    raw.extend(appended_text(ends_a_line(raw.last().copied()), "{\"name\":\"dopo.zip\"}"));
    assert_eq!(lines(&raw), vec!["{\"name\":\"ok.zip\"}", "{\"name\":\"tron", "{\"name\":\"dopo.zip\"}"]);
    let shown = recent(lines(&raw).iter().map(|l| read_entry(l)).collect());
    assert_eq!(shown.iter().map(|e| e.name.as_str()).collect::<Vec<_>>(), vec!["dopo.zip", "ok.zip"]);
    assert_eq!(appended_text(true, "x"), b"x\n");
    assert_eq!(appended_text(false, "x"), b"\nx\n");
    assert!(ends_a_line(None) && ends_a_line(Some(b'\n')) && !ends_a_line(Some(b'x')));
}

#[test]
fn a_line_cut_inside_a_character_costs_no_other() {
    let mut raw = appended_text(true, "{\"name\":\"città.zip\"}");
    // the write of the second line stops in the middle of its last letter
    let whole = "{\"name\":\"perché".as_bytes();
    raw.extend(&whole[..whole.len() - 1]);
    raw.extend(appended_text(ends_a_line(raw.last().copied()), "{\"name\":\"dopo.zip\"}"));
    let read = lines(&raw);
    assert_eq!(read.len(), 3);
    assert_eq!(read[0], "{\"name\":\"città.zip\"}");
    assert_eq!(read[1], "{\"name\":\"perch\u{fffd}");
    assert_eq!(read[2], "{\"name\":\"dopo.zip\"}");
    let shown = recent(read.iter().map(|l| read_entry(l)).collect());
    assert_eq!(shown.iter().map(|e| e.name.as_str()).collect::<Vec<_>>(), vec!["dopo.zip", "città.zip"]);
}

#[test]
fn pruning_twice_is_pruning_once() {
    let write = |e: &Entry| Some(format!("{{\"name\":\"{}\"}}", e.name));
    let prune = |raw: &Vec<u8>| {
        let shown = recent(lines(raw).iter().map(|l| read_entry(l)).collect());
        pruned_text(&shown.iter().map(write).collect())
    };
    let mut raw = b"rotta\r\n".to_vec();
    for i in 0..KEEP + 20 {
        raw.extend(appended_text(true, &format!("{{\"name\":\"f{i}\"}}")));
    }
    let once = prune(&raw);
    assert_eq!(lines(&once).len(), KEEP);
    assert_eq!(lines(&once)[0], "{\"name\":\"f20\"}");
    assert_eq!(prune(&once), once);
}

#[test]
fn history_has_its_place_and_time() {
    let p = history_path("/data");
    assert_eq!((p.dir.as_str(), p.name.as_str()), ("/data", "history.jsonl"));
    assert_eq!(now_epoch(Some(5)), 5);
    assert_eq!(now_epoch(None), 0);
}

#[test]
fn notifications_say_what_happened() {
    assert_eq!(finished("f.zip", true, ""), ("Download completato".to_string(), "f.zip".to_string()));
    assert_eq!(finished("f.zip", false, "404"), ("Download fallito".to_string(), "f.zip\n404".to_string()));
    let r = register("C:\\mdm.exe");
    assert_eq!(r.key, r"Software\Classes\AppUserModelId\com.sriva.mdm");
    assert_eq!((r.display_name.as_str(), r.icon_uri.as_str()), ("MDM", "C:\\mdm.exe"));
}

#[test]
fn the_task_bar_is_told() {
    assert!(mdm::taskbar::set(0, TBPF_NORMAL, 1, 2).is_none());
    let p = mdm::taskbar::set(7, TBPF_NORMAL, 1, 2).unwrap();
    assert_eq!((p.state, p.value), (TBPF_NORMAL, Some((1, 2))));
    assert_eq!(mdm::taskbar::set(7, TBPF_NOPROGRESS, 1, 2).unwrap().value, None);
    assert_eq!(mdm::taskbar::set(7, TBPF_NORMAL, 1, 0).unwrap().value, None);
}

#[test]
fn bytes_are_shown_as_floats_are() {
    assert_eq!(fmt_bytes(0), "0 B");
    assert_eq!(fmt_bytes(1023), "1023 B");
    assert_eq!(fmt_bytes(1024), "1.0 KB");
    assert_eq!(fmt_bytes(12 * 1024 * 1024), "12.0 MB");
    assert_eq!(fmt_bytes(1024 * 1024 - 1), "1024.0 KB");
    let shown = |b: u64| {
        let mut v = b as f64;
        let mut u = 0;
        while v >= 1024.0 && u < 3 {
            v /= 1024.0;
            u += 1;
        }
        format!("{v:.1} {}", ["B", "KB", "MB", "GB"][u])
    };
    let mut x: u64 = 0x12345678;
    for i in 0..4000u32 {
        x = x.wrapping_mul(6364136223846793005).wrapping_add(1442695040888963407);
        let b = (x >> (i % 54)).max(1024);
        assert_eq!(fmt_bytes(b), shown(b), "{b}");
    }
    for b in [1280, 1331, 1382, 1536, 53 * 512 * 10, u64::MAX, u64::MAX - 1024, (1 << 53) + 1, (1 << 54) + 2, (1 << 60) + 128] {
        assert_eq!(fmt_bytes(b), shown(b), "{b}");
    }
}

#[test]
fn times_are_shown() {
    assert_eq!(fmt_eta(0), "00:00");
    assert_eq!(fmt_eta(75), "01:15");
    assert_eq!(fmt_eta(3599), "59:59");
    assert_eq!(fmt_eta(3661), "1:01:01");
    assert_eq!(fmt_eta(360_000), "100:00:00");
}

#[test]
fn log_lines_have_a_tone() {
    assert_eq!(log_tone("> ERRORE: completato"), Tone::Bad);
    assert_eq!(log_tone("> completato: x"), Tone::Good);
    assert_eq!(log_tone("> aggiornamento disponibile"), Tone::News);
    assert_eq!(log_tone("> riprendo: x"), Tone::Plain);
    assert_eq!(list_title(0), "Downloads");
    assert_eq!(list_title(2), "Downloads — 2 attivi");
    assert_eq!(folder_setting(" /d \t"), "/d");
    assert_eq!(activity_label(0), "● IDLE");
    assert_eq!(activity_label(3), "● 3 ACTIVE");
    assert_eq!(update_label("v2", false), "[ ⇡ update v2 ]");
    assert_eq!(update_label("v2", true), "[ aggiorno... ]");
}

fn download(status: Status, done: u64, total: u64) -> Download {
    let mut d = Download::new(1, Job::default(), 8, 0);
    d.status = status;
    d.done = done;
    d.total = total;
    d.queue_pos = 2;
    d
}

#[test]
fn rows_say_how_it_goes() {
    let row = |s: Status| row_info(&download(s, 1024, 2048), " 50%  ", 512, Some(90));
    assert_eq!(row(Status::Active), " 50%  1.0 KB / 2.0 KB   ▼ 512 B/s   eta 01:30   8 conn");
    assert_eq!(row(Status::Paused), " 50%  1.0 KB / 2.0 KB   in pausa — riprende dal punto esatto");
    assert_eq!(row(Status::Done), "2.0 KB   completato");
    assert_eq!(row(Status::Failed("boh".to_string())), "fallito: boh — [ resume ] per ritentare");
    assert_eq!(row(Status::Cancelled), "annullato");
    assert_eq!(row(Status::Connecting), "connessione...");
    assert_eq!(row(Status::Queued), "in coda (2 davanti)");
    assert_eq!(row_info(&download(Status::Active, 1024, 0), "", 512, None), "1.0 KB   ▼ 512 B/s");
    assert!(row_info(&download(Status::Active, 1, 9), "", 0, None).contains("eta --:--"));
}

#[test]
fn rows_have_their_buttons() {
    let b = buttons(&Status::Active);
    assert!(b.abort && b.pause && !b.resume && !b.close && !b.open);
    let b = buttons(&Status::Failed("x".to_string()));
    assert!(b.resume && b.close && b.discards && !b.abort);
    let b = buttons(&Status::Done);
    assert!(b.open && b.close && !b.discards);
    let b = buttons(&Status::Queued);
    assert!(b.abort && !b.pause && !b.close);
    assert_eq!(mark(&Status::Connecting), Mark::Spinner);
    assert_eq!(mark(&Status::Failed("x".to_string())), Mark::Cross);
    assert_eq!(mark(&Status::Paused), Mark::Pause);
}

#[test]
fn gauges_show_every_range() {
    let mut d = download(Status::Active, 7, 20);
    d.segs = vec![Seg { done: 99, ..Seg::new(0, 9, 0) }, Seg::new(10, 19, 4)];
    match gauge(&d) {
        Gauge::Pieces(p) => assert_eq!(p, vec![(0, 10), (10, 4)]),
        other => panic!("{other:?}"),
    }
    d.total = 0;
    assert!(matches!(gauge(&d), Gauge::Moving));
    d.status = Status::Paused;
    assert!(matches!(gauge(&d), Gauge::Empty));
    d.status = Status::Done;
    assert!(matches!(gauge(&d), Gauge::Full));
}

#[test]
fn the_icon_is_a_mouse() {
    let px = icon_rgba();
    assert_eq!(px.len(), 32 * 32 * 4);
    let at = |x: usize, y: usize| [px[(y * 32 + x) * 4], px[(y * 32 + x) * 4 + 1], px[(y * 32 + x) * 4 + 2], px[(y * 32 + x) * 4 + 3]];
    assert_eq!(at(0, 0), [0, 0, 0, 0]);
    assert_eq!(at(22, 9), [0xe8, 0xa0, 0xa8, 255]); // an ear
    assert_eq!(at(10, 13), [0x6e, 0x76, 0x9c, 255]); // the back
    assert_eq!(at(22, 17), [0x2c, 0x31, 0x4a, 255]); // the eye
    assert_eq!(px.chunks(4).filter(|p| p[3] == 255).count(), 4 * 49);
}
