use kovi_plugin_transfer::cmd::{
    build_forward_label, describe_rule, describe_source, describe_target, handle_command,
    parse_add_rule, parse_source, parse_target,
};
use kovi_plugin_transfer::config::{default_true, Source, Target, TransferConfig, TransferRule};

fn words(s: &str) -> Vec<&str> {
    s.split_whitespace().collect()
}

fn run(cfg: &mut TransferConfig, s: &str) -> (String, bool) {
    let w = words(s);
    let out = handle_command(cfg, &w);
    (out.reply, out.changed)
}

#[test]
fn parses_private_to_group() {
    let r = parse_add_rule(&words("/transfer add private 123456 -> group 789012")).unwrap();
    assert!(r.enabled);
    assert_eq!(r.source, Source::Private { qq: 123456 });
    assert_eq!(r.target, Target::Group { group_id: 789012 });
    assert_eq!(r.name, "private 123456 -> group 789012");
}

#[test]
fn parses_group_user_to_private() {
    let r = parse_add_rule(&words("/transfer add group_user 789012 111111 -> private 222222")).unwrap();
    assert_eq!(r.source, Source::GroupUser { group_id: 789012, qq: 111111 });
    assert_eq!(r.target, Target::Private { qq: 222222 });
    assert_eq!(r.name, "group_user 789012 111111 -> private 222222");
}

#[test]
fn parses_group_to_group() {
    let r = parse_add_rule(&words("/transfer add group 789012 -> group 333333")).unwrap();
    assert_eq!(r.source, Source::Group { group_id: 789012 });
    assert_eq!(r.target, Target::Group { group_id: 333333 });
}

#[test]
fn rejects_malformed_add() {
    for s in [
        "/transfer add private 1 group 2",
        "/transfer add private -> group 2",
        "/transfer add -> group 2",
        "/transfer add private 1 -> group",
        "/transfer add private x -> group 2",
        "/transfer add channel 1 -> group 2",
        "/transfer add private 1 -> group_user 2 3",
        "/transfer add group_user 1 -> group 2",
        "/transfer add private 99999999999999999999 -> group 2",
    ] {
        assert!(parse_add_rule(&words(s)).is_none(), "{}", s);
    }
}

#[test]
fn extra_words_are_kept_in_the_name() {
    let r = parse_add_rule(&words("/t add private 5 6 -> group 7 8")).unwrap();
    assert_eq!(r.source, Source::Private { qq: 5 });
    assert_eq!(r.target, Target::Group { group_id: 7 });
    assert_eq!(r.name, "private 5 6 -> group 7 8");
}

#[test]
fn source_and_target_parsing() {
    assert_eq!(parse_source(&["private", "-5"]), Some(Source::Private { qq: -5 }));
    assert_eq!(parse_source(&["group"]), None);
    assert_eq!(parse_source(&["group_user", "1", "+2"]), Some(Source::GroupUser { group_id: 1, qq: 2 }));
    assert_eq!(parse_target(&["group", "9"]), Some(Target::Group { group_id: 9 }));
    assert_eq!(parse_target(&["group_user", "9", "1"]), None);
}

#[test]
fn descriptions() {
    assert_eq!(describe_source(&Source::Private { qq: 1 }), "私聊 QQ 1");
    assert_eq!(describe_source(&Source::Group { group_id: 2 }), "群 2 全部消息");
    assert_eq!(describe_source(&Source::GroupUser { group_id: 2, qq: 3 }), "群 2 中 QQ 3 的消息");
    assert_eq!(describe_target(&Target::Private { qq: -4 }), "私聊 QQ -4");
    assert_eq!(describe_target(&Target::Group { group_id: 5 }), "群 5");
    let rule = TransferRule {
        enabled: true,
        name: "n".to_string(),
        source: Source::Group { group_id: 2 },
        target: Target::Private { qq: 9 },
    };
    assert_eq!(describe_rule(&rule, 3), "  #3. [ON] 群 2 全部消息 -> 私聊 QQ 9 (n)");
    let off = TransferRule { enabled: false, name: String::new(), ..rule };
    assert_eq!(describe_rule(&off, 10), "  #10. [OFF] 群 2 全部消息 -> 私聊 QQ 9");
}

#[test]
fn forward_labels() {
    assert_eq!(
        build_forward_label(&Source::Private { qq: 123456 }, "张三", 123456),
        "[转发自私聊 - 张三(123456)]\n"
    );
    assert_eq!(
        build_forward_label(&Source::Group { group_id: 789012 }, "李四", 111111),
        "[转发自群 789012 - 李四(111111)]\n"
    );
    assert_eq!(
        build_forward_label(&Source::GroupUser { group_id: 789012, qq: 111111 }, "李四", 111111),
        "[转发自群 789012 - 李四(111111)]\n"
    );
}

#[test]
fn defaults() {
    assert!(default_true());
    assert!(TransferConfig::default().rules.is_empty());
}

#[test]
fn command_session() {
    let mut cfg = TransferConfig::default();
    assert_eq!(run(&mut cfg, "/transfer list"), ("暂无转发规则。".to_string(), false));
    assert_eq!(
        run(&mut cfg, "/transfer add private 123456 -> group 789012"),
        ("[OK] 已添加规则 #1, 共 1 条规则".to_string(), true)
    );
    assert_eq!(
        run(&mut cfg, "/transfer add group 789012 -> group 333333"),
        ("[OK] 已添加规则 #2, 共 2 条规则".to_string(), true)
    );
    assert_eq!(
        run(&mut cfg, "/transfer disable 1"),
        ("[OK] 已禁用规则 #1".to_string(), true)
    );
    assert!(!cfg.rules[0].enabled);
    assert_eq!(
        run(&mut cfg, "/transfer list").0,
        "转发规则列表:\n  #1. [OFF] 私聊 QQ 123456 -> 群 789012 (private 123456 -> group 789012)\n  #2. [ON] 群 789012 全部消息 -> 群 333333 (group 789012 -> group 333333)"
    );
    assert_eq!(run(&mut cfg, "/transfer on 1"), ("[OK] 已启用规则 #1".to_string(), true));
    assert!(cfg.rules[0].enabled);
    assert_eq!(
        run(&mut cfg, "/transfer remove 3"),
        ("索引无效: 3（有效范围 1-2）".to_string(), false)
    );
    assert_eq!(
        run(&mut cfg, "/transfer del 0"),
        ("索引无效: 0（有效范围 1-2）".to_string(), false)
    );
    assert_eq!(
        run(&mut cfg, "/transfer delete 1"),
        (
            "[OK] 已移除规则 #1 (  #1. [ON] 私聊 QQ 123456 -> 群 789012 (private 123456 -> group 789012))"
                .to_string(),
            true
        )
    );
    assert_eq!(cfg.rules.len(), 1);
    assert_eq!(cfg.rules[0].source, Source::Group { group_id: 789012 });
}

#[test]
fn command_errors() {
    let mut cfg = TransferConfig::default();
    assert_eq!(
        run(&mut cfg, "/transfer add nonsense"),
        (
            "格式: /transfer add <private|group|group_user> <id1> [id2] -> <private|group> <id>"
                .to_string(),
            false
        )
    );
    assert_eq!(run(&mut cfg, "/transfer remove"), ("用法: /transfer remove <索引>".to_string(), false));
    assert_eq!(run(&mut cfg, "/transfer remove x"), ("用法: /transfer remove <索引>".to_string(), false));
    assert_eq!(run(&mut cfg, "/transfer enable"), ("用法: /transfer enable <索引>".to_string(), false));
    assert_eq!(run(&mut cfg, "/transfer off -1"), ("用法: /transfer disable <索引>".to_string(), false));
    assert_eq!(run(&mut cfg, "/transfer enable 1"), ("索引无效: 1（有效范围 1-0）".to_string(), false));
    assert_eq!(
        run(&mut cfg, "/transfer frobnicate"),
        ("未知子命令。可用: add, remove, list, enable, disable".to_string(), false)
    );
    assert!(cfg.rules.is_empty());
}

#[test]
fn remove_undoes_add() {
    let mut cfg = TransferConfig::default();
    run(&mut cfg, "/transfer add group 1 -> group 2");
    let before: Vec<(bool, String)> = cfg.rules.iter().map(|r| (r.enabled, r.name.clone())).collect();
    run(&mut cfg, "/transfer add private 3 -> private 4");
    assert_eq!(run(&mut cfg, "/transfer remove 2").1, true);
    let after: Vec<(bool, String)> = cfg.rules.iter().map(|r| (r.enabled, r.name.clone())).collect();
    assert_eq!(before, after);
}

#[test]
fn enable_undoes_disable() {
    let mut cfg = TransferConfig::default();
    run(&mut cfg, "/transfer add group 1 -> group 2");
    run(&mut cfg, "/transfer disable 1");
    run(&mut cfg, "/transfer enable 1");
    assert!(cfg.rules[0].enabled);
    assert_eq!(cfg.rules[0].source, Source::Group { group_id: 1 });
}

#[test]
fn canonical_words_give_the_rule() {
    for (src, tgt) in [
        (Source::Private { qq: -7 }, Target::Group { group_id: i64::MAX }),
        (Source::GroupUser { group_id: i64::MIN, qq: 0 }, Target::Private { qq: 12 }),
    ] {
        let mut ws: Vec<String> = vec!["/transfer".into(), "add".into()];
        match src {
            Source::Private { qq } => ws.extend(["private".to_string(), qq.to_string()]),
            Source::Group { group_id } => ws.extend(["group".to_string(), group_id.to_string()]),
            Source::GroupUser { group_id, qq } => {
                ws.extend(["group_user".to_string(), group_id.to_string(), qq.to_string()])
            }
        }
        ws.push("->".into());
        match tgt {
            Target::Private { qq } => ws.extend(["private".to_string(), qq.to_string()]),
            Target::Group { group_id } => ws.extend(["group".to_string(), group_id.to_string()]),
        }
        let refs: Vec<&str> = ws.iter().map(|s| s.as_str()).collect();
        let r = parse_add_rule(&refs).unwrap();
        assert_eq!((r.source, r.target, r.enabled), (src, tgt, true));
    }
}

#[test]
fn distinct_sources_distinct_descriptions() {
    let sources = [
        Source::Private { qq: 1 },
        Source::Private { qq: -1 },
        Source::Group { group_id: 1 },
        Source::Group { group_id: 12 },
        Source::GroupUser { group_id: 1, qq: 2 },
        Source::GroupUser { group_id: 12, qq: 2 },
        Source::GroupUser { group_id: 1, qq: 22 },
    ];
    for a in &sources {
        for b in &sources {
            assert_eq!(describe_source(a) == describe_source(b), a == b);
        }
    }
}

#[test]
fn on_and_off_lines_differ_only_in_status() {
    let on = TransferRule {
        enabled: true,
        name: "[ON] x".to_string(),
        source: Source::Private { qq: 3 },
        target: Target::Group { group_id: 4 },
    };
    let off = TransferRule { enabled: false, ..on.clone() };
    let line = describe_rule(&on, 12);
    assert!(line.starts_with("  #12. [ON] "));
    assert_eq!(describe_rule(&off, 12), line.replacen("[ON]", "[OFF]", 1));
}
