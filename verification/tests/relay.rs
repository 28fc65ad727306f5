use phyllotaxis::chat::{channel_name, clean_name, irc_event, login_line, next_line, parse_chat_line, parse_privmsg, IrcEvent};
use phyllotaxis::patch::{extract_patch, run_of_pairs};
use phyllotaxis::relay::{respond, Current, Relay};

#[test]
fn a_shared_url_yields_its_patch() {
    let msg = "try this one https://akindoflikeness.net/instruments/phyllotaxis/#0:1,1:4.000,18:110.0,2:1.618 so good";
    assert_eq!(
        extract_patch(msg).as_deref(),
        Some("0:1,1:4.000,18:110.0,2:1.618")
    );
}

#[test]
fn a_bare_fragment_survives_a_link_eating_chat() {
    let msg = "0:3,1:7.550,18:55.0,2:0.910,20:0.750";
    assert_eq!(extract_patch(msg).as_deref(), Some(msg));
}

#[test]
fn timestamps_and_scores_are_not_patches() {
    assert_eq!(extract_patch("see you at 1:30"), None);
    assert_eq!(extract_patch("it went 1:30, 2:45 then 3:15"), None);
    assert_eq!(extract_patch("plain chatter"), None);
}

#[test]
fn negative_values_belong_to_the_strum() {
    let msg = "#0:1,4:-0.700,5:0.900,7:0.400";
    assert_eq!(extract_patch(msg).as_deref(), Some("0:1,4:-0.700,5:0.900,7:0.400"));
}

#[test]
fn privmsg_parses_to_nick_and_text() {
    let line = ":anna!anna@anna.tmi.twitch.tv PRIVMSG #akol :here 0:1,1:2.0";
    assert_eq!(
        parse_privmsg(line),
        Some(("anna".into(), "here 0:1,1:2.0".into()))
    );
}

/// The longest run wins, and an id of three digits is not an id.
#[test]
fn the_longest_run_wins() {
    let msg = "0:1,1:2,2:3,3:4 and later 5:1,6:2,7:3,8:4,9:5";
    assert_eq!(extract_patch(msg).as_deref(), Some("5:1,6:2,7:3,8:4,9:5"));
    assert_eq!(extract_patch("123:4,1:2,2:3,3:4"), None);
    // A patch glued to a word is not a patch: the digit must not follow a letter.
    assert_eq!(extract_patch("x0:1,1:2,2:3,3:4"), None);
    // A value needs a digit; a lone minus or dot ends the run.
    assert_eq!(extract_patch("0:1,1:2,2:3,3:-"), None);
    assert_eq!(extract_patch("0:1,1:2,2:3,3:."), None);
    // Non-ASCII around the patch is fine.
    assert_eq!(extract_patch("ça va 0:1,1:2,2:3,3:4 ✓").as_deref(), Some("0:1,1:2,2:3,3:4"));
}

/// Over 400 bytes is not a patch, however many pairs it holds; the longest
/// run within the limit is, even where it starts inside a longer one.
#[test]
fn an_overlong_run_yields_its_longest_tail_within_the_limit() {
    let long: Vec<String> = (0..90).map(|k| format!("{}:{}", k % 100, 1000)).collect();
    let msg = long.join(",");
    assert!(msg.len() > 400);
    let mut starts = vec![0usize];
    starts.extend(msg.match_indices(',').map(|(i, _)| i + 1));
    let tail_start = starts.into_iter().find(|&i| msg.len() - i <= 400).unwrap();
    assert_eq!(extract_patch(&msg).as_deref(), Some(&msg[tail_start..]));
    // Too long as a whole, and too few pairs in what is left.
    let msg = format!("0:{},1:1,2:1,3:1", "1".repeat(400));
    assert_eq!(extract_patch(&msg), None);
    let short: Vec<String> = (0..20).map(|k| format!("{}:{}", k, 1)).collect();
    let msg = short.join(",");
    assert_eq!(extract_patch(&msg).as_deref(), Some(msg.as_str()));
}

/// A run that starts inside a shorter one is still found.
#[test]
fn a_run_starting_inside_another_is_found() {
    assert_eq!(extract_patch("1:23:4,5:6,7:8,9:1").as_deref(), Some("23:4,5:6,7:8,9:1"));
    // On a tie, the earlier run is kept.
    assert_eq!(
        extract_patch("0:1,1:2,2:3,3:4 and 5:1,6:2,7:3,8:4").as_deref(),
        Some("0:1,1:2,2:3,3:4")
    );
}

#[test]
fn runs_report_their_end_and_count() {
    let b = b"0:1,1:-2.5,x";
    assert_eq!(run_of_pairs(b, 0), (10, 2));
    assert_eq!(run_of_pairs(b"ab", 0), (0, 0));
    assert_eq!(run_of_pairs(b"1:2", 5), (5, 0));
    assert_eq!(run_of_pairs(b"1:2,", 0), (3, 1));
}

#[test]
fn names_are_cleaned_for_the_stream() {
    assert_eq!(clean_name("anna"), "anna");
    assert_eq!(clean_name("Ärger_123!"), "rger_123");
    assert_eq!(clean_name("!!!"), "chat");
    assert_eq!(clean_name(""), "chat");
    assert_eq!(clean_name(&"a".repeat(40)), "a".repeat(25));
}

#[test]
fn privmsg_rejects_other_commands() {
    assert_eq!(parse_privmsg("PING :tmi.twitch.tv"), None);
    assert_eq!(parse_privmsg(":tmi.twitch.tv 001 justinfan61803 :Welcome"), None);
    assert_eq!(parse_privmsg(":anna PRIVMSG #akol no-colon"), None);
    assert_eq!(
        parse_privmsg(":bob PRIVMSG #akol :hi :there"),
        Some(("bob".into(), "hi :there".into()))
    );
}

#[test]
fn stdin_lines_name_their_speaker() {
    assert_eq!(
        parse_chat_line("[0:12:05] anna: 0:1,1:2"),
        Some(("anna".into(), "0:1,1:2".into()))
    );
    assert_eq!(
        parse_chat_line("  just words  \n"),
        Some(("chat".into(), "just words".into()))
    );
    assert_eq!(parse_chat_line("   \n"), None);
    assert_eq!(
        parse_chat_line(": leading colon"),
        Some(("chat".into(), ": leading colon".into()))
    );
    let long_name = format!("{}: hi", "n".repeat(41));
    assert_eq!(parse_chat_line(&long_name), Some(("chat".into(), long_name.clone())));
    assert_eq!(
        parse_chat_line("[broken stamp anna: hi"),
        Some(("[broken stamp anna".into(), "hi".into()))
    );
}

#[test]
fn irc_lines_split_and_answer() {
    assert_eq!(next_line("PING :x\r\nrest"), Some(("PING :x".into(), "rest".into())));
    assert_eq!(next_line("partial"), None);
    match irc_event("PING :tmi.twitch.tv") {
        IrcEvent::Pong(reply) => assert_eq!(reply, "PONG :tmi.twitch.tv\r\n"),
        _ => panic!("a PING must be answered"),
    }
    match irc_event(":anna!a@a PRIVMSG #akol :hello") {
        IrcEvent::Chat(from, text) => {
            assert_eq!(from, "anna");
            assert_eq!(text, "hello");
        }
        _ => panic!("a PRIVMSG is chat"),
    }
    assert!(matches!(irc_event(":tmi 001 me :hi"), IrcEvent::Ignore));
}

#[test]
fn channels_and_logins() {
    assert_eq!(channel_name("#AkoL"), "akol");
    assert_eq!(channel_name("##x"), "x");
    assert_eq!(login_line("akol"), "NICK justinfan61803\r\nJOIN #akol\r\n");
}

/// Latest wins, but a patch holds the floor.
#[test]
fn the_floor_is_held_then_given() {
    let hold = 30_000_000_000u128;
    let mut r = Relay::new();
    assert!(r.hear("anna", "0:1,1:2,2:3,3:4").is_some());
    assert!(r.hear("bob", "just talking").is_none());
    assert!(r.tick(0, hold));
    assert_eq!(r.current.seq, 1);
    assert_eq!(r.current.from, "anna");
    // Two more arrive while the floor is held: the later replaces the earlier.
    r.hear("bob", "0:2,1:2,2:3,3:4");
    r.hear("cy!", "0:3,1:2,2:3,3:4");
    assert!(!r.tick(hold - 1, hold));
    assert_eq!(r.current.seq, 1);
    assert!(r.tick(hold, hold));
    assert_eq!(r.current.seq, 2);
    assert_eq!(r.current.from, "cy");
    assert_eq!(r.current.hash, "0:3,1:2,2:3,3:4");
    // Nothing waiting: nothing applied, however long it has been.
    assert!(!r.tick(10 * hold, hold));
    assert_eq!(r.current.seq, 2);
}

#[test]
fn the_page_is_answered() {
    let cur = Current { seq: 42, hash: "0:1,1:2".into(), from: "anna".into() };
    let ok = respond("GET /patch HTTP/1.1\r\nHost: x\r\n\r\n", &cur);
    let body = r#"{"seq":42,"hash":"0:1,1:2","from":"anna"}"#;
    assert!(ok.starts_with("HTTP/1.1 200 OK\r\n"));
    assert!(ok.contains("Access-Control-Allow-Origin: *\r\n"));
    assert!(ok.contains("Cross-Origin-Resource-Policy: cross-origin\r\n"));
    assert!(ok.contains(&format!("Content-Length: {}\r\n", body.len())));
    assert!(ok.ends_with(&format!("\r\n\r\n{body}")));
    let pre = respond("OPTIONS /patch HTTP/1.1\r\n", &cur);
    assert!(pre.starts_with("HTTP/1.1 204 No Content\r\n"));
    assert!(pre.ends_with("Content-Length: 0\r\nConnection: close\r\n\r\n"));
    let missing = respond("GET /other HTTP/1.1\r\n", &cur);
    assert!(missing.starts_with("HTTP/1.1 404 Not Found\r\n"));
    assert!(respond("", &cur).starts_with("HTTP/1.1 404 Not Found\r\n"));
}

/// Lines are trimmed of exactly the characters `char::is_whitespace` accepts.
#[test]
fn lines_trim_what_std_calls_white_space() {
    for u in (0u32..0x3100).chain([0xFEFF, 0x10FFFF]) {
        let Some(c) = char::from_u32(u) else { continue };
        if c == ':' || c == '[' || c == ']' {
            continue;
        }
        let raw = format!("{c}{c}just words{c}");
        assert_eq!(
            parse_chat_line(&raw),
            Some(("chat".into(), raw.trim().into())),
            "U+{u:04X}"
        );
    }
}
