use nonos_chat::chat::{visible_tail, wrap, Chat, Key};
use nonos_chat::protocol::Response;

fn field(c: &Chat, i: usize) -> String {
    c.field(i).iter().collect()
}

fn lines(text: &str, width: usize) -> Vec<String> {
    let mut out = Vec::new();
    wrap(text, width, true, &mut out);
    assert!(out.iter().all(|(label, _)| *label));
    out.into_iter().map(|(_, l)| l).collect()
}

#[test]
fn wrap_breaks_paragraphs_and_long_lines() {
    assert_eq!(lines("abcdefg\nxy", 3), vec!["abc", "def", "g", "xy"]);
    assert_eq!(lines("", 5), vec![""]);
    assert_eq!(lines("a\n\nb", 5), vec!["a", "", "b"]);
    assert_eq!(lines("ab", 0), vec!["", "a", "b"]);
    let text = "Hallo Welt\nüber alles hinaus";
    let l = lines(text, 4);
    assert!(l.iter().all(|line| line.chars().count() <= 4 && !line.contains('\n')));
    assert_eq!(l.concat(), text.replace('\n', ""));
}

#[test]
fn new_window_defaults() {
    let c = Chat::new();
    assert_eq!(field(&c, 0), "https://api.openai.com/v1");
    assert_eq!(field(&c, 1), "");
    assert_eq!(c.focus(), 0);
    assert!(!c.busy());
    assert_eq!(c.status(), "Enter the API URL, key and model.");
    let t = c.transcript(80);
    assert_eq!(t.len(), 2);
    assert!(t[1].1.starts_with("Key and history"));
}

fn ready_chat() -> Chat {
    let mut c = Chat::new();
    c.key(Key::SelectAll, 0, 0);
    c.edit("https://api.example/v1");
    c.key(Key::Tab, 0, 0);
    c.edit("sk-test");
    c.key(Key::Tab, 0, 0);
    c.edit("model-x");
    c.key(Key::Tab, 0, 0);
    c
}

#[test]
fn typing_fills_fields_and_resets_the_chat() {
    let mut c = ready_chat();
    assert_eq!(field(&c, 0), "https://api.example/v1");
    assert_eq!(field(&c, 1), "sk-test");
    assert_eq!(field(&c, 2), "model-x");
    assert_eq!(c.focus(), 3);
    assert_eq!(c.status(), "Settings changed. New chat.");
    c.edit("hi\u{7}\nthere");
    assert_eq!(field(&c, 3), "hi\nthere");
    c.key(Key::Backspace, 0, 0);
    assert_eq!(field(&c, 3), "hi\nther");
    c.key(Key::Printable(b'!'), 0, 0);
    c.key(Key::Printable(200), 0, 0);
    assert_eq!(field(&c, 3), "hi\nther!");
}

#[test]
fn fields_keep_their_byte_limits() {
    let mut c = Chat::new();
    c.key(Key::Tab, 0, 0);
    c.key(Key::Tab, 0, 0);
    c.edit(&"é".repeat(200));
    assert_eq!(field(&c, 2).len(), 256);
    c.edit("x");
    assert_eq!(field(&c, 2).len(), 256);
    c.key(Key::SelectAll, 0, 0);
    c.edit("m\n");
    assert_eq!(field(&c, 2), "m");
}

#[test]
fn sending_requires_a_message_and_a_valid_url() {
    let mut c = ready_chat();
    c.key(Key::Enter { shift: false }, 5, 1);
    assert_eq!(c.status(), "Please enter a message.");
    assert!(!c.busy());
    let mut d = Chat::new();
    d.key(Key::SelectAll, 0, 0);
    d.edit("http://x");
    d.start(true, 0, 0);
    assert_eq!(d.status(), "Please enter an HTTPS API URL.");
    let mut e = Chat::new();
    e.start(true, 0, 0);
    assert_eq!(e.status(), "API key is missing or contains invalid characters.");
}

#[test]
fn a_chat_round_trip() {
    let mut c = ready_chat();
    c.edit("Hello");
    c.key(Key::Enter { shift: true }, 0, 0);
    assert_eq!(field(&c, 3), "Hello\n");
    c.key(Key::Backspace, 0, 0);
    c.key(Key::Enter { shift: false }, 10, 20);
    assert!(c.busy());
    assert_eq!(c.status(), "Model is responding ... (cancel at any time)");
    let job = c.take_job().unwrap();
    assert!(!c.busy());
    let sent = String::from_utf8(job.request().to_vec()).unwrap();
    assert!(sent.starts_with("POST /v1/chat/completions HTTP/1.1\r\nHost: api.example\r\n"));
    assert!(sent.contains("\"content\":\"Hello\""));
    assert_eq!(job.wall(), 20);
    c.restore_job(job);
    assert!(c.busy());
    c.edit("ignored while busy");
    assert_eq!(field(&c, 3), "Hello");
    let body = br#"{"choices":[{"message":{"content":"Hi!"}}]}"#.to_vec();
    c.reply_arrived(Response { status: 200, body });
    assert!(!c.busy());
    assert_eq!(c.status(), "Response received.");
    assert_eq!(field(&c, 3), "");
    let t = c.transcript(80);
    let text: Vec<&str> = t.iter().map(|(_, l)| l.as_str()).collect();
    assert_eq!(text, vec!["You", "Hello", "", "Assistant", "Hi!", ""]);
    assert!(t[0].0 && t[3].0 && !t[1].0);
    c.clamp_scroll(t.len(), 4);
    assert_eq!(c.scroll(), 2);
}

#[test]
fn escape_and_errors_end_the_request() {
    let mut c = ready_chat();
    c.click(100, 230, 0, 0);
    assert!(c.busy());
    assert_eq!(c.status(), "Testing connection ...");
    c.key(Key::Escape, 0, 0);
    assert!(!c.busy());
    assert_eq!(c.status(), "Request cancelled.");
    c.click(100, 230, 0, 0);
    c.request_failed("TLS handshake timed out.");
    assert!(!c.busy());
    assert_eq!(c.status(), "TLS handshake timed out.");
    c.click(100, 230, 0, 0);
    c.reply_arrived(Response { status: 429, body: b"secret".to_vec() });
    assert_eq!(c.status(), "Provider limit reached. Please try again later.");
}

#[test]
fn clicks_focus_fields_and_run_buttons() {
    let mut c = ready_chat();
    c.click(10, 90, 0, 0);
    assert_eq!(c.focus(), 0);
    c.click(10, 160, 0, 0);
    assert_eq!(c.focus(), 1);
    c.click(700, 160, 0, 0);
    assert_eq!(c.focus(), 2);
    c.click(10, 580, 0, 0);
    assert_eq!(c.focus(), 3);
    c.edit("draft");
    c.click(300, 230, 0, 0);
    assert_eq!(c.status(), "New chat.");
    assert_eq!(field(&c, 3), "");
    c.click(500, 230, 0, 0);
    assert_eq!(c.status(), "API key cleared.");
    assert_eq!(field(&c, 1), "");
    c.set_size(2000, 1000);
    c.click(1900, 920, 0, 0);
    assert_eq!(c.status(), "Please enter a message.");
}

#[test]
fn scrolling() {
    let mut c = Chat::new();
    c.wheel(1);
    c.wheel(1);
    assert_eq!(c.scroll(), 6);
    c.key(Key::Up, 0, 0);
    assert_eq!(c.scroll(), 4);
    c.wheel(-1);
    c.wheel(-1);
    assert_eq!(c.scroll(), 0);
    c.key(Key::Down, 0, 0);
    assert_eq!(c.scroll(), 2);
    c.clamp_scroll(1, 0);
    assert_eq!(c.scroll(), 0);
}

#[test]
fn model_list_is_shown_in_place_of_the_chat() {
    let mut c = ready_chat();
    c.click(100, 230, 0, 0);
    let body = br#"{"data":[{"id":"m1"}]}"#.to_vec();
    c.reply_arrived(Response { status: 200, body });
    assert_eq!(c.status(), "Connection successful. Read the model names below and enter one above.");
    let t = c.transcript(80);
    assert_eq!(t[0].1, "Connected. Available models:");
    assert_eq!(t[1].1, "m1");
}

#[test]
fn fields_show_their_typed_end() {
    let v: Vec<char> = "abcdefghijklmnop".chars().collect();
    // (100 - 28) / 9 = 8 characters fit.
    assert_eq!(visible_tail(&v, 100), "ijklmnop");
    assert_eq!(visible_tail(&v, 1000), "abcdefghijklmnop");
    assert_eq!(visible_tail(&v, 20), "");
    assert_eq!(visible_tail(&[], 100), "");
}

#[test]
fn key_and_message_are_shown_masked_and_on_one_line() {
    let mut c = ready_chat();
    assert_eq!(c.key_mask().iter().collect::<String>(), "*******");
    c.edit("one\ntwo");
    assert_eq!(c.message_line().iter().collect::<String>(), "one / two");
    let mut d = Chat::new();
    d.key(Key::Tab, 0, 0);
    d.edit(&"k".repeat(80));
    assert_eq!(d.key_mask().len(), 50);
}

#[test]
fn status_is_cut_to_the_window() {
    let mut c = Chat::new();
    assert_eq!(c.status_shown(), "Enter the API URL, key and model.");
    c.set_size(70, 660);
    assert_eq!(c.status_shown(), "Enter the ");
}

#[test]
fn shown_lines_follow_the_scroll_position() {
    let mut c = Chat::new();
    // 1040 wide: (1040 - 100) / 9 = 104 columns; 660 high: (540 - 300) / 23 = 10 rows.
    let all = c.transcript(104);
    let shown = c.shown_lines();
    assert_eq!(shown, all);
    c.set_size(1040, 446);
    // (326 - 300) / 23 = 1 row.
    c.wheel(1);
    let shown = c.shown_lines();
    assert_eq!(c.scroll(), 1);
    assert_eq!(shown, vec![all[1].clone()]);
    c.set_size(1040, 100);
    let shown = c.shown_lines();
    assert!(shown.is_empty());
    assert_eq!(c.scroll(), 1);
}

#[test]
fn an_empty_reply_body_is_invalid_json() {
    let mut c = ready_chat();
    c.edit("Hello");
    c.key(Key::Enter { shift: false }, 0, 0);
    c.reply_arrived(Response { status: 200, body: Vec::new() });
    assert!(!c.busy());
    assert_eq!(c.status(), "The API returned invalid JSON.");
    assert_eq!(field(&c, 3), "Hello");
}

#[test]
fn the_key_is_only_shown_masked() {
    let mut a = Chat::new();
    a.key(Key::Tab, 0, 0);
    a.edit("sk-aaaa");
    let mut b = Chat::new();
    b.key(Key::Tab, 0, 0);
    b.edit("sk-bbbb");
    assert_eq!(a.key_mask(), b.key_mask());
    assert_eq!(a.shown_lines(), b.shown_lines());
    assert_eq!(a.status_shown(), b.status_shown());
}

#[test]
fn showing_twice_changes_nothing() {
    let mut c = Chat::new();
    c.set_size(1040, 446);
    c.wheel(1);
    c.wheel(1);
    let first = c.shown_lines();
    let scroll = c.scroll();
    assert_eq!(c.shown_lines(), first);
    assert_eq!(c.scroll(), scroll);
}
