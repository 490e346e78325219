use bingus::bot::{command_named, fits_in_message, may_run, plan_message, status_text, BotCommand};
use bingus::config::parse_reply_channels;
use bingus::Brain;

#[test]
fn reply_channels_parse() {
    assert_eq!(parse_reply_channels("123,456"), Some(vec![123, 456]));
    assert_eq!(parse_reply_channels(" 1 , +2,\t3\n"), Some(vec![1, 2, 3]));
    assert_eq!(parse_reply_channels("18446744073709551615"), Some(vec![u64::MAX]));
    assert_eq!(parse_reply_channels("18446744073709551616"), None);
    assert_eq!(parse_reply_channels("1,,2"), None);
    assert_eq!(parse_reply_channels(""), None);
    assert_eq!(parse_reply_channels("-1"), None);
    assert_eq!(parse_reply_channels("+"), None);
    assert_eq!(parse_reply_channels("12a"), None);
    assert_eq!(parse_reply_channels("00042"), Some(vec![42]));
}

#[test]
fn reply_channels_match_std() {
    for s in ["7", " 7 ", "+7", "++7", "99999999999999999999", "1 2", "\u{3000}5\u{00A0}", "0,0"] {
        let std: Option<Vec<u64>> = s
            .split(",")
            .map(|p| p.trim().parse::<u64>())
            .collect::<Result<Vec<_>, _>>()
            .ok();
        assert_eq!(parse_reply_channels(s), std, "{s:?}");
    }
}

#[test]
fn message_plans() {
    let p = plan_message(true, false, false, false, true);
    assert!(p.learn && p.reply && p.quote);
    let p = plan_message(true, false, false, true, true);
    assert!(!p.learn && p.reply && !p.quote);
    let p = plan_message(true, false, false, false, false);
    assert!(p.learn && !p.reply);
    for (normal, ephemeral, dm) in [(false, false, false), (true, true, false), (true, false, true)] {
        let p = plan_message(normal, ephemeral, dm, false, true);
        assert!(!p.learn && !p.reply);
    }
}

#[test]
fn commands_by_name() {
    assert_eq!(command_named("weights"), Some(BotCommand::Weights));
    assert_eq!(command_named("dump_chain"), Some(BotCommand::DumpChain));
    assert_eq!(command_named("load_chain"), Some(BotCommand::LoadChain));
    assert_eq!(command_named("markov"), Some(BotCommand::Markov));
    assert_eq!(command_named("forget"), Some(BotCommand::Forget));
    assert_eq!(command_named("forget_edge"), None);
    assert_eq!(command_named("Weights"), None);
    assert_eq!(command_named(""), None);
}

#[test]
fn status_line() {
    assert_eq!(status_text(0), "I know 0 words!");
    assert_eq!(status_text(7), "I know 7 words!");
    assert_eq!(status_text(1203), "I know 1203 words!");
    assert_eq!(status_text(usize::MAX), format!("I know {} words!", usize::MAX));
}

#[test]
fn message_length_limit() {
    assert!(fits_in_message(""));
    assert!(fits_in_message(&"a".repeat(1999)));
    assert!(!fits_in_message(&"a".repeat(2000)));
    assert!(fits_in_message(&"\u{1F600}".repeat(999)));
    assert!(fits_in_message(&format!("{}a", "\u{1F600}".repeat(999))));
    assert!(!fits_in_message(&format!("{}ab", "\u{1F600}".repeat(999))));
}

#[test]
fn reply_roll_thresholds() {
    assert!(Brain::reply_roll_passes(0, false));
    assert!(Brain::reply_roll_passes(80, false));
    assert!(!Brain::reply_roll_passes(81, false));
    assert!(Brain::reply_roll_passes(45, true));
    assert!(!Brain::reply_roll_passes(46, true));
    assert!(!Brain::reply_roll_passes(100, true));
}

#[test]
fn owner_only_commands() {
    let open = [BotCommand::Markov, BotCommand::Weights];
    let owned = [BotCommand::Forget, BotCommand::DumpChain, BotCommand::LoadChain];
    for c in open {
        assert!(!c.owner_only());
    }
    for c in owned {
        assert!(c.owner_only());
    }
    let owners = vec![11, 42];
    for c in open {
        assert!(may_run(c, 7, &owners));
        assert!(may_run(c, 7, &vec![]));
    }
    for c in owned {
        assert!(may_run(c, 42, &owners));
        assert!(may_run(c, 11, &owners));
        assert!(!may_run(c, 7, &owners));
        assert!(!may_run(c, 0, &owners));
        assert!(!may_run(c, 42, &vec![]));
    }
}
